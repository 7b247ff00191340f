//! The table and its accessors.

use vstd::prelude::*;
use crate::datum::{classify, Datum};
use crate::header::{
    lemma_position_of_absent, lemma_position_of_first_match, names_of, position_of, positions_of,
};
use crate::order::{max_of, max_position, min_of, min_position, Ordered};
use crate::policy::{
    imputed_column, imputed_columns, imputed_pair_at, imputed_row_at, imputes, imputes_row,
    lemma_filtered_count, pair_at, read_cell, rows_of, shorter, slice_at, typed_at, typed_cell,
};
use crate::record::{cell_at, field, field_count, record_fields};
use crate::sort::{is_stable_sort, sort_by_first};
use crate::text::{same_text, FromText};

verus! {

/// Why an operation on a table failed.
#[derive(Debug, Clone, Copy, PartialEq, Eq, Structural)]
pub enum FrameError {
    /// The header holds no column of the requested name.
    UnknownColumn,
    /// The two tables of a concatenation differ in their number of columns.
    ColumnCountMismatch,
    /// A maximum was asked of a column without a single readable value.
    NoMaximum,
    /// A minimum was asked of a column without a single readable value.
    NoMinimum,
}

impl FrameError {
    /// The text of the message that goes with this error.
    pub open spec fn text(&self) -> Seq<char> {
        match *self {
            FrameError::UnknownColumn => "No existe la columna"@,
            FrameError::ColumnCountMismatch => "El número de columnas no es el mismo"@,
            FrameError::NoMaximum => "No se encontró el máximo"@,
            FrameError::NoMinimum => "No se encontró el mínimo"@,
        }
    }

    /// The message that goes with this error.
    pub fn message(&self) -> (message: String)
        ensures
            message@ == self.text(),
    {
        match *self {
            FrameError::UnknownColumn => "No existe la columna".to_owned(),
            FrameError::ColumnCountMismatch => "El número de columnas no es el mismo".to_owned(),
            FrameError::NoMaximum => "No se encontró el máximo".to_owned(),
            FrameError::NoMinimum => "No se encontró el mínimo".to_owned(),
        }
    }
}

/// A table: a header of column names over rows of text cells.
///
/// A row may hold fewer cells than the header has names; the cells it lacks
/// are absent. Names need not be distinct: a name stands for the first column
/// that bears it.
#[derive(Debug)]
pub struct RawFrame {
    pub records: Vec<csv::StringRecord>,
    pub columns: csv::StringRecord,
}

impl RawFrame {
    /// The column names, in order.
    pub open spec fn header(&self) -> Seq<Seq<char>> {
        record_fields(self.columns)
    }

    /// The position that `name` resolves to.
    pub open spec fn position(&self, name: Seq<char>) -> Option<int> {
        position_of(self.header(), name)
    }

    /// Appends the rows of `cola` to this table, provided both tables have the
    /// same number of columns. The names of `cola`'s columns play no part, and
    /// this table's header stays as it is.
    pub fn concat(&mut self, cola: RawFrame) -> (r: Result<(), FrameError>)
        ensures
            final(self).columns == old(self).columns,
            old(self).header().len() == cola.header().len() ==> r == Ok::<(), FrameError>(())
                && final(self).records@ == old(self).records@ + cola.records@
                && final(self).records@.len() == old(self).records@.len() + cola.records@.len(),
            old(self).header().len() != cola.header().len() ==> r == Err::<(), FrameError>(
                FrameError::ColumnCountMismatch,
            ) && final(self).records@ == old(self).records@,
    {
        if field_count(&self.columns) != field_count(&cola.columns) {
            return Err(FrameError::ColumnCountMismatch);
        }
        let mut rows = cola.records;
        self.records.append(&mut rows);
        Ok(())
    }

    /// Resolves a column name to its position in the header: the first column
    /// of that name, `None` where the header has none.
    pub fn col_index(&self, column: &str) -> (found: Option<usize>)
        ensures
            match found {
                Some(p) => self.position(column@) == Some(p as int),
                None => self.position(column@).is_none(),
            },
    {
        let n = field_count(&self.columns);
        let mut i: usize = 0;
        while i < n
            invariant
                n == self.header().len(),
                0 <= i <= n,
                forall|j: int| 0 <= j < i ==> self.header()[j] != column@,
            decreases n - i,
        {
            match field(&self.columns, i) {
                Some(name) => {
                    if same_text(name, column) {
                        proof {
                            lemma_position_of_first_match(self.header(), column@, i as int);
                        }
                        return Some(i);
                    }
                },
                None => {},
            }
            i = i + 1;
        }
        proof {
            lemma_position_of_absent(self.header(), column@);
        }
        None
    }

    /// Resolves a column name, failing where the header has no such column.
    fn col_position(&self, column: &str) -> (r: Result<usize, FrameError>)
        ensures
            match self.position(column@) {
                Some(p) => r == Ok::<usize, FrameError>(p as usize) && p <= usize::MAX,
                None => r == Err::<usize, FrameError>(FrameError::UnknownColumn),
            },
    {
        match self.col_index(column) {
            Some(p) => Ok(p),
            None => Err(FrameError::UnknownColumn),
        }
    }

    /// Reads a column as values of type `T`, one entry per row: `Some` where
    /// the cell reads as a `T`, `None` where it is absent or does not.
    pub fn col_type<T: FromText>(&self, column: &str) -> (r: Result<Vec<Option<T>>, FrameError>)
        ensures
            match self.position(column@) {
                Some(p) => r matches Ok(v) && v@ == self.records@.map_values(typed_at::<T>(p)),
                None => r matches Err(e) && e == FrameError::UnknownColumn,
            },
    {
        let p = match self.col_position(column) {
            Ok(p) => p,
            Err(e) => { return Err(e); },
        };
        let mut out: Vec<Option<T>> = Vec::new();
        let n = self.records.len();
        let mut i: usize = 0;
        while i < n
            invariant
                n == self.records@.len(),
                0 <= i <= n,
                out@ == self.records@.take(i as int).map_values(typed_at::<T>(p as int)),
            decreases n - i,
        {
            let value = read_cell::<T>(&self.records[i], p);
            proof {
                let f = typed_at::<T>(p as int);
                assert(self.records@.take(i + 1).map_values(f) =~= self.records@.take(
                    i as int,
                ).map_values(f).push(f(self.records@[i as int])));
            }
            out.push(value);
            i = i + 1;
        }
        proof {
            assert(self.records@.take(n as int) =~= self.records@);
        }
        Ok(out)
    }

    /// Reads a column as values of type `T`, leaving out the rows whose cell
    /// is absent or does not read as a `T`.
    pub fn col_fil<T: FromText>(&self, column: &str) -> (r: Result<Vec<T>, FrameError>)
        ensures
            match self.position(column@) {
                Some(p) => r matches Ok(v) && v@ == self.records@.filter_map(typed_at::<T>(p))
                    && v@.len() <= self.records@.len(),
                None => r matches Err(e) && e == FrameError::UnknownColumn,
            },
    {
        let p = match self.col_position(column) {
            Ok(p) => p,
            Err(e) => { return Err(e); },
        };
        proof {
            lemma_filtered_count::<T>(self.records@, p as int);
        }
        let mut out: Vec<T> = Vec::new();
        let n = self.records.len();
        let mut i: usize = 0;
        while i < n
            invariant
                n == self.records@.len(),
                0 <= i <= n,
                out@ == self.records@.take(i as int).filter_map(typed_at::<T>(p as int)),
            decreases n - i,
        {
            proof {
                self.records@.lemma_filter_map_take_succ(typed_at::<T>(p as int), i as int);
            }
            match read_cell::<T>(&self.records[i], p) {
                Some(value) => {
                    out.push(value);
                },
                None => {},
            }
            i = i + 1;
        }
        proof {
            assert(self.records@.take(n as int) =~= self.records@);
        }
        Ok(out)
    }

    /// Reads a column as values of type `T`, one entry per row, with a clone
    /// of `none_val` for each cell that is absent or does not read as a `T`.
    pub fn col_imp<T: FromText + Clone>(&self, column: &str, none_val: T) -> (r: Result<
        Vec<T>,
        FrameError,
    >)
        ensures
            match self.position(column@) {
                Some(p) => r matches Ok(v) && v@.len() == self.records@.len() && forall|i: int|
                    0 <= i < v@.len() ==> imputes(self.records@[i], p, none_val, #[trigger] v@[i]),
                None => r matches Err(e) && e == FrameError::UnknownColumn,
            },
    {
        let p = match self.col_position(column) {
            Ok(p) => p,
            Err(e) => { return Err(e); },
        };
        let mut out: Vec<T> = Vec::new();
        let n = self.records.len();
        let mut i: usize = 0;
        while i < n
            invariant
                n == self.records@.len(),
                0 <= i <= n,
                out@.len() == i,
                forall|k: int|
                    0 <= k < i ==> imputes(self.records@[k], p as int, none_val, #[trigger] out@[k]),
            decreases n - i,
        {
            let value = match read_cell::<T>(&self.records[i], p) {
                Some(value) => value,
                None => none_val.clone(),
            };
            out.push(value);
            i = i + 1;
        }
        Ok(out)
    }
    /// Classifies each cell of a column, one datum per row.
    pub fn column<'a>(&'a self, column: &str) -> (r: Result<Vec<Datum<'a>>, FrameError>)
        ensures
            match self.position(column@) {
                Some(p) => r matches Ok(v) && v@.len() == self.records@.len() && forall|i: int|
                    0 <= i < v@.len() ==> (#[trigger] v@[i])@ == classify(
                        cell_at(self.records@[i], p),
                    ),
                None => r matches Err(e) && e == FrameError::UnknownColumn,
            },
    {
        let p = match self.col_position(column) {
            Ok(p) => p,
            Err(e) => { return Err(e); },
        };
        let mut out: Vec<Datum<'a>> = Vec::new();
        let n = self.records.len();
        let mut i: usize = 0;
        while i < n
            invariant
                n == self.records@.len(),
                0 <= i <= n,
                out@.len() == i,
                forall|k: int|
                    0 <= k < i ==> (#[trigger] out@[k])@ == classify(
                        cell_at(self.records@[k], p as int),
                    ),
            decreases n - i,
        {
            let datum = Datum::of(field(&self.records[i], p));
            out.push(datum);
            i = i + 1;
        }
        Ok(out)
    }

    /// The greatest of a column's values of type `T`; of several that rank
    /// equally, the last. Cells that are absent or do not read as a `T` play
    /// no part.
    pub fn max_num_fil<T: FromText + Ordered>(&self, column: &str) -> (r: Result<T, FrameError>)
        ensures
            match self.position(column@) {
                Some(p) => {
                    let values = self.records@.filter_map(typed_at::<T>(p));
                    if values.len() > 0 {
                        r matches Ok(m) && m == max_of(values)
                    } else {
                        r matches Err(e) && e == FrameError::NoMaximum
                    }
                },
                None => r matches Err(e) && e == FrameError::UnknownColumn,
            },
    {
        let mut values = match self.col_fil::<T>(column) {
            Ok(values) => values,
            Err(e) => { return Err(e); },
        };
        match max_position(&values) {
            Some(k) => Ok(values.swap_remove(k)),
            None => Err(FrameError::NoMaximum),
        }
    }

    /// The least of a column's values of type `T`; of several that rank
    /// equally, the first. Cells that are absent or do not read as a `T` play
    /// no part.
    pub fn min_num_fil<T: FromText + Ordered>(&self, column: &str) -> (r: Result<T, FrameError>)
        ensures
            match self.position(column@) {
                Some(p) => {
                    let values = self.records@.filter_map(typed_at::<T>(p));
                    if values.len() > 0 {
                        r matches Ok(m) && m == min_of(values)
                    } else {
                        r matches Err(e) && e == FrameError::NoMinimum
                    }
                },
                None => r matches Err(e) && e == FrameError::UnknownColumn,
            },
    {
        let mut values = match self.col_fil::<T>(column) {
            Ok(values) => values,
            Err(e) => { return Err(e); },
        };
        match min_position(&values) {
            Some(k) => Ok(values.swap_remove(k)),
            None => Err(FrameError::NoMinimum),
        }
    }

    /// The least and the greatest of a column's values of type `T`, in this
    /// order: what `min_num_fil` and `max_num_fil` give. The maximum is looked
    /// for first, so a column without values fails with `NoMaximum`.
    pub fn extent_num_fil<T: FromText + Ordered>(&self, column: &str) -> (r: Result<
        (T, T),
        FrameError,
    >)
        ensures
            match self.position(column@) {
                Some(p) => {
                    let values = self.records@.filter_map(typed_at::<T>(p));
                    if values.len() > 0 {
                        r matches Ok(ends) && ends == (min_of(values), max_of(values))
                    } else {
                        r matches Err(e) && e == FrameError::NoMaximum
                    }
                },
                None => r matches Err(e) && e == FrameError::UnknownColumn,
            },
    {
        let maximo = match self.max_num_fil::<T>(column) {
            Ok(m) => m,
            Err(e) => { return Err(e); },
        };
        let minimo = match self.min_num_fil::<T>(column) {
            Ok(m) => m,
            Err(e) => { return Err(e); },
        };
        Ok((minimo, maximo))
    }

    /// Reads two columns as pairs of values of type `T`, leaving out every row
    /// in which either cell is absent or does not read as a `T`.
    pub fn pair_col_fil<T: FromText>(&self, xcolumn: &str, ycolumn: &str) -> (r: Result<
        Vec<(T, T)>,
        FrameError,
    >)
        ensures
            match (self.position(xcolumn@), self.position(ycolumn@)) {
                (Some(px), Some(py)) => r matches Ok(v) && v@ == self.records@.filter_map(
                    pair_at::<T>(px, py),
                ),
                _ => r matches Err(e) && e == FrameError::UnknownColumn,
            },
    {
        let px = match self.col_position(xcolumn) {
            Ok(p) => p,
            Err(e) => { return Err(e); },
        };
        let py = match self.col_position(ycolumn) {
            Ok(p) => p,
            Err(e) => { return Err(e); },
        };
        let mut out: Vec<(T, T)> = Vec::new();
        let n = self.records.len();
        let mut i: usize = 0;
        while i < n
            invariant
                n == self.records@.len(),
                0 <= i <= n,
                out@ == self.records@.take(i as int).filter_map(
                    pair_at::<T>(px as int, py as int),
                ),
            decreases n - i,
        {
            proof {
                self.records@.lemma_filter_map_take_succ(
                    pair_at::<T>(px as int, py as int),
                    i as int,
                );
            }
            let xval = read_cell::<T>(&self.records[i], px);
            let yval = read_cell::<T>(&self.records[i], py);
            match (xval, yval) {
                (Some(valx), Some(valy)) => {
                    out.push((valx, valy));
                },
                _ => {},
            }
            i = i + 1;
        }
        proof {
            assert(self.records@.take(n as int) =~= self.records@);
        }
        Ok(out)
    }

    /// Reads two columns as pairs of values of type `T`, one pair per row,
    /// with a clone of the column's default for each cell that is absent or
    /// does not read as a `T`.
    pub fn pair_col_imp<T: FromText + Clone>(
        &self,
        xcolumn: &str,
        ycolumn: &str,
        none_val_x: T,
        none_val_y: T,
    ) -> (r: Result<Vec<(T, T)>, FrameError>)
        ensures
            match (self.position(xcolumn@), self.position(ycolumn@)) {
                (Some(px), Some(py)) => r matches Ok(v) && v@.len() == self.records@.len()
                    && forall|i: int|
                    0 <= i < v@.len() ==> imputes(
                        self.records@[i],
                        px,
                        none_val_x,
                        (#[trigger] v@[i]).0,
                    ) && imputes(self.records@[i], py, none_val_y, v@[i].1),
                _ => r matches Err(e) && e == FrameError::UnknownColumn,
            },
    {
        let px = match self.col_position(xcolumn) {
            Ok(p) => p,
            Err(e) => { return Err(e); },
        };
        let py = match self.col_position(ycolumn) {
            Ok(p) => p,
            Err(e) => { return Err(e); },
        };
        let mut out: Vec<(T, T)> = Vec::new();
        let n = self.records.len();
        let mut i: usize = 0;
        while i < n
            invariant
                n == self.records@.len(),
                0 <= i <= n,
                out@.len() == i,
                forall|k: int|
                    0 <= k < i ==> imputes(
                        self.records@[k],
                        px as int,
                        none_val_x,
                        (#[trigger] out@[k]).0,
                    ) && imputes(self.records@[k], py as int, none_val_y, out@[k].1),
            decreases n - i,
        {
            let xval = match read_cell::<T>(&self.records[i], px) {
                Some(value) => value,
                None => none_val_x.clone(),
            };
            let yval = match read_cell::<T>(&self.records[i], py) {
                Some(value) => value,
                None => none_val_y.clone(),
            };
            out.push((xval, yval));
            i = i + 1;
        }
        Ok(out)
    }

    /// The pairs of `pair_col_fil`, sorted by their first element, lowest
    /// first; pairs whose first elements rank equally stay in row order.
    pub fn pair_col_fil_sorted<T: FromText + Ordered>(&self, xcolumn: &str, ycolumn: &str) -> (r:
        Result<Vec<(T, T)>, FrameError>)
        ensures
            match (self.position(xcolumn@), self.position(ycolumn@)) {
                (Some(px), Some(py)) => r matches Ok(v) && is_stable_sort(
                    v@,
                    self.records@.filter_map(pair_at::<T>(px, py)),
                ),
                _ => r matches Err(e) && e == FrameError::UnknownColumn,
            },
    {
        match self.pair_col_fil::<T>(xcolumn, ycolumn) {
            Ok(pairs) => Ok(sort_by_first(pairs)),
            Err(e) => Err(e),
        }
    }

    /// The pairs that imputation gives for two columns, one per row, sorted by
    /// their first element, lowest first; pairs whose first elements rank
    /// equally stay in row order.
    pub fn pair_col_imp_sorted<T: FromText + Ordered + Copy>(
        &self,
        xcolumn: &str,
        ycolumn: &str,
        none_val_x: T,
        none_val_y: T,
    ) -> (r: Result<Vec<(T, T)>, FrameError>)
        ensures
            match (self.position(xcolumn@), self.position(ycolumn@)) {
                (Some(px), Some(py)) => r matches Ok(v) && is_stable_sort(
                    v@,
                    self.records@.map_values(imputed_pair_at(px, py, none_val_x, none_val_y)),
                ),
                _ => r matches Err(e) && e == FrameError::UnknownColumn,
            },
    {
        let px = match self.col_position(xcolumn) {
            Ok(p) => p,
            Err(e) => { return Err(e); },
        };
        let py = match self.col_position(ycolumn) {
            Ok(p) => p,
            Err(e) => { return Err(e); },
        };
        let ghost pair_of = imputed_pair_at(px as int, py as int, none_val_x, none_val_y);
        let mut pairs: Vec<(T, T)> = Vec::new();
        let n = self.records.len();
        let mut i: usize = 0;
        while i < n
            invariant
                n == self.records@.len(),
                0 <= i <= n,
                pair_of == imputed_pair_at(px as int, py as int, none_val_x, none_val_y),
                pairs@ == self.records@.take(i as int).map_values(pair_of),
            decreases n - i,
        {
            let xval = match read_cell::<T>(&self.records[i], px) {
                Some(value) => value,
                None => none_val_x,
            };
            let yval = match read_cell::<T>(&self.records[i], py) {
                Some(value) => value,
                None => none_val_y,
            };
            proof {
                assert(self.records@.take(i + 1).map_values(pair_of) =~= self.records@.take(
                    i as int,
                ).map_values(pair_of).push(pair_of(self.records@[i as int])));
            }
            pairs.push((xval, yval));
            i = i + 1;
        }
        proof {
            assert(self.records@.take(n as int) =~= self.records@);
        }
        Ok(sort_by_first(pairs))
    }
    /// Resolves the first `count` of `columns`, failing where any of them is
    /// no column of this table.
    fn col_positions(&self, columns: &Vec<&str>, count: usize) -> (r: Result<
        Vec<usize>,
        FrameError,
    >)
        requires
            count <= columns@.len(),
        ensures
            match positions_of(self.header(), names_of(columns@).take(count as int)) {
                Some(ps) => r matches Ok(v) && v@.len() == count && forall|c: int|
                    0 <= c < count ==> (#[trigger] v@[c]) as int == ps[c],
                None => r matches Err(e) && e == FrameError::UnknownColumn,
            },
    {
        let ghost names = names_of(columns@).take(count as int);
        let mut out: Vec<usize> = Vec::new();
        let mut c: usize = 0;
        while c < count
            invariant
                0 <= c <= count <= columns@.len(),
                names == names_of(columns@).take(count as int),
                out@.len() == c,
                forall|k: int|
                    0 <= k < c ==> position_of(self.header(), names[k]) == Some(
                        (#[trigger] out@[k]) as int,
                    ),
            decreases count - c,
        {
            let name: &str = columns[c];
            assert(names[c as int] == name@);
            match self.col_position(name) {
                Ok(p) => {
                    out.push(p);
                },
                Err(e) => {
                    return Err(e);
                },
            }
            c = c + 1;
        }
        proof {
            assert forall|k: int| 0 <= k < names.len() implies position_of(
                self.header(),
                #[trigger] names[k],
            ).is_some() by {
                assert(position_of(self.header(), names[k]) == Some(out@[k] as int));
            }
        }
        Ok(out)
    }

    /// Reads several columns as rows of values of type `T`, one row per
    /// record, each column with its own default from `imp_vals`: a clone of it
    /// stands for each cell that is absent or does not read as a `T`. A row
    /// has one entry for each column that has a default. Every name in
    /// `columns` has to be a column of this table.
    pub fn slice_col_imp<T: FromText + Clone>(&self, columns: Vec<&str>, imp_vals: Vec<T>) -> (r:
        Result<Vec<Vec<T>>, FrameError>)
        ensures
            match positions_of(self.header(), names_of(columns@)) {
                Some(ps) => r matches Ok(v) && v@.len() == self.records@.len() && forall|i: int|
                    0 <= i < v@.len() ==> imputes_row(
                        self.records@[i],
                        ps,
                        imp_vals@,
                        (#[trigger] v@[i])@,
                    ),
                None => r matches Err(e) && e == FrameError::UnknownColumn,
            },
    {
        proof {
            assert(names_of(columns@).take(columns@.len() as int) =~= names_of(columns@));
        }
        let positions = match self.col_positions(&columns, columns.len()) {
            Ok(positions) => positions,
            Err(e) => { return Err(e); },
        };
        let ghost ps = positions_of(self.header(), names_of(columns@)).unwrap();
        let width = if positions.len() <= imp_vals.len() {
            positions.len()
        } else {
            imp_vals.len()
        };
        let mut out: Vec<Vec<T>> = Vec::new();
        let n = self.records.len();
        let mut i: usize = 0;
        while i < n
            invariant
                n == self.records@.len(),
                0 <= i <= n,
                ps.len() == positions@.len(),
                forall|c: int| 0 <= c < ps.len() ==> (#[trigger] positions@[c]) as int == ps[c],
                width == shorter(ps.len(), imp_vals@.len()),
                out@.len() == i,
                forall|k: int|
                    0 <= k < i ==> imputes_row(
                        self.records@[k],
                        ps,
                        imp_vals@,
                        (#[trigger] out@[k])@,
                    ),
            decreases n - i,
        {
            let mut row: Vec<T> = Vec::new();
            let mut c: usize = 0;
            while c < width
                invariant
                    i < n == self.records@.len(),
                    ps.len() == positions@.len(),
                    forall|c: int|
                        0 <= c < ps.len() ==> (#[trigger] positions@[c]) as int == ps[c],
                    width == shorter(ps.len(), imp_vals@.len()),
                    0 <= c <= width,
                    row@.len() == c,
                    forall|k: int|
                        0 <= k < c ==> imputes(
                            self.records@[i as int],
                            ps[k],
                            imp_vals@[k],
                            #[trigger] row@[k],
                        ),
                decreases width - c,
            {
                let value = match read_cell::<T>(&self.records[i], positions[c]) {
                    Some(value) => value,
                    None => imp_vals[c].clone(),
                };
                row.push(value);
                c = c + 1;
            }
            out.push(row);
            i = i + 1;
        }
        Ok(out)
    }

    /// Reads several columns as rows of values of type `T`, leaving out every
    /// record in which any of the cells is absent or does not read as a `T`.
    /// Every name in `columns` has to be a column of this table.
    pub fn slice_col_fil<T: FromText>(&self, columns: Vec<&str>) -> (r: Result<
        Vec<Vec<T>>,
        FrameError,
    >)
        ensures
            match positions_of(self.header(), names_of(columns@)) {
                Some(ps) => r matches Ok(v) && rows_of(v@) == self.records@.filter_map(
                    slice_at::<T>(ps),
                ),
                None => r matches Err(e) && e == FrameError::UnknownColumn,
            },
    {
        proof {
            assert(names_of(columns@).take(columns@.len() as int) =~= names_of(columns@));
        }
        let positions = match self.col_positions(&columns, columns.len()) {
            Ok(positions) => positions,
            Err(e) => { return Err(e); },
        };
        let ghost ps = positions_of(self.header(), names_of(columns@)).unwrap();
        let ghost pick = slice_at::<T>(ps);
        let width = positions.len();
        let mut out: Vec<Vec<T>> = Vec::new();
        let n = self.records.len();
        let mut i: usize = 0;
        while i < n
            invariant
                n == self.records@.len(),
                0 <= i <= n,
                width == ps.len() == positions@.len(),
                forall|c: int| 0 <= c < ps.len() ==> (#[trigger] positions@[c]) as int == ps[c],
                pick == slice_at::<T>(ps),
                rows_of(out@) == self.records@.take(i as int).filter_map(pick),
            decreases n - i,
        {
            let ghost record = self.records@[i as int];
            let mut row: Vec<T> = Vec::new();
            let mut complete = true;
            let mut c: usize = 0;
            while c < width && complete
                invariant
                    i < n == self.records@.len(),
                    record == self.records@[i as int],
                    width == ps.len() == positions@.len(),
                    forall|c: int|
                        0 <= c < ps.len() ==> (#[trigger] positions@[c]) as int == ps[c],
                    0 <= c <= width,
                    complete ==> row@.len() == c,
                    complete ==> forall|k: int|
                        0 <= k < c ==> typed_cell::<T>(record, ps[k]) == Some(#[trigger] row@[k]),
                    !complete ==> exists|k: int|
                        0 <= k < width && typed_cell::<T>(record, #[trigger] ps[k]).is_none(),
                decreases width - c + if complete { 1int } else { 0int },
            {
                match read_cell::<T>(&self.records[i], positions[c]) {
                    Some(value) => {
                        row.push(value);
                        c = c + 1;
                    },
                    None => {
                        assert(typed_cell::<T>(record, ps[c as int]).is_none());
                        complete = false;
                    },
                }
            }
            proof {
                self.records@.lemma_filter_map_take_succ(pick, i as int);
                if complete {
                    assert(pick(record) == Some(row@)) by {
                        assert forall|k: int| 0 <= k < ps.len() implies typed_cell::<T>(
                            record,
                            #[trigger] ps[k],
                        ).is_some() by {
                            assert(typed_cell::<T>(record, ps[k]) == Some(row@[k]));
                        }
                        assert(pick(record).is_some());
                        assert(pick(record).unwrap() =~= row@);
                    }
                    assert(rows_of(out@.push(row)) =~= rows_of(out@).push(row@));
                } else {
                    assert(pick(record).is_none());
                }
            }
            if complete {
                out.push(row);
            }
            i = i + 1;
        }
        proof {
            assert(self.records@.take(n as int) =~= self.records@);
        }
        Ok(out)
    }

    /// The columns that imputation gives, laid end to end: first every row's
    /// value of the first column, then of the second, and so on. Only the
    /// columns that have a default in `imp_vals` are read, and only they have
    /// to be columns of this table.
    pub fn column_major_vector<T: FromText + Copy>(&self, columns: Vec<&str>, imp_vals: Vec<T>) -> (r:
        Result<Vec<T>, FrameError>)
        ensures
            match positions_of(
                self.header(),
                names_of(columns@).take(shorter(columns@.len(), imp_vals@.len()) as int),
            ) {
                Some(ps) => r matches Ok(v) && v@ == imputed_columns(
                    self.records@,
                    ps,
                    imp_vals@,
                ).flatten(),
                None => r matches Err(e) && e == FrameError::UnknownColumn,
            },
    {
        let width = if columns.len() <= imp_vals.len() {
            columns.len()
        } else {
            imp_vals.len()
        };
        let positions = match self.col_positions(&columns, width) {
            Ok(positions) => positions,
            Err(e) => { return Err(e); },
        };
        let ghost ps = positions_of(
            self.header(),
            names_of(columns@).take(width as int),
        ).unwrap();
        let ghost all = imputed_columns(self.records@, ps, imp_vals@);
        let mut out: Vec<T> = Vec::new();
        let n = self.records.len();
        let mut c: usize = 0;
        proof {
            assert(all.take(0) =~= Seq::<Seq<T>>::empty());
        }
        while c < width
            invariant
                n == self.records@.len(),
                width == ps.len() == positions@.len(),
                width <= imp_vals@.len(),
                forall|k: int| 0 <= k < ps.len() ==> (#[trigger] positions@[k]) as int == ps[k],
                all == imputed_columns(self.records@, ps, imp_vals@),
                0 <= c <= width,
                out@ == all.take(c as int).flatten(),
            decreases width - c,
        {
            let ghost done = out@;
            let default = imp_vals[c];
            let p = positions[c];
            let mut i: usize = 0;
            while i < n
                invariant
                    n == self.records@.len(),
                    0 <= i <= n,
                    p as int == ps[c as int],
                    default == imp_vals@[c as int],
                    out@ == done + imputed_column(self.records@, p as int, default).take(i as int),
                decreases n - i,
            {
                let value = match read_cell::<T>(&self.records[i], p) {
                    Some(value) => value,
                    None => default,
                };
                proof {
                    let col = imputed_column(self.records@, p as int, default);
                    assert(col.take(i + 1) =~= col.take(i as int).push(col[i as int]));
                    assert(done + col.take(i + 1) =~= (done + col.take(i as int)).push(
                        col[i as int],
                    ));
                }
                out.push(value);
                i = i + 1;
            }
            proof {
                let col = imputed_column(self.records@, p as int, default);
                assert(col.take(n as int) =~= col);
                assert(all[c as int] == col);
                assert(all.take(c + 1) =~= all.take(c as int).push(col));
                all.take(c as int).lemma_flatten_push(col);
            }
            c = c + 1;
        }
        proof {
            assert(all.take(width as int) =~= all);
        }
        Ok(out)
    }

    /// The rows that imputation gives, laid end to end: first the first
    /// record's values, then the second's, and so on. A row has one value for
    /// each column that has a default in `imp_vals`. Every name in `columns`
    /// has to be a column of this table.
    pub fn row_major_vector<T: FromText + Copy>(&self, columns: Vec<&str>, imp_vals: Vec<T>) -> (r:
        Result<Vec<T>, FrameError>)
        ensures
            match positions_of(self.header(), names_of(columns@)) {
                Some(ps) => r matches Ok(v) && v@ == self.records@.flat_map(
                    imputed_row_at(ps, imp_vals@),
                ),
                None => r matches Err(e) && e == FrameError::UnknownColumn,
            },
    {
        proof {
            assert(names_of(columns@).take(columns@.len() as int) =~= names_of(columns@));
        }
        let positions = match self.col_positions(&columns, columns.len()) {
            Ok(positions) => positions,
            Err(e) => { return Err(e); },
        };
        let ghost ps = positions_of(self.header(), names_of(columns@)).unwrap();
        let ghost row_of = imputed_row_at(ps, imp_vals@);
        let width = if positions.len() <= imp_vals.len() {
            positions.len()
        } else {
            imp_vals.len()
        };
        let mut out: Vec<T> = Vec::new();
        let n = self.records.len();
        let mut i: usize = 0;
        proof {
            assert(self.records@.take(0).map_values(row_of) =~= Seq::<Seq<T>>::empty());
        }
        while i < n
            invariant
                n == self.records@.len(),
                0 <= i <= n,
                ps.len() == positions@.len(),
                forall|k: int| 0 <= k < ps.len() ==> (#[trigger] positions@[k]) as int == ps[k],
                width == shorter(ps.len(), imp_vals@.len()),
                row_of == imputed_row_at(ps, imp_vals@),
                out@ == self.records@.take(i as int).flat_map(row_of),
            decreases n - i,
        {
            let ghost done = out@;
            let ghost record = self.records@[i as int];
            let mut c: usize = 0;
            while c < width
                invariant
                    i < n == self.records@.len(),
                    record == self.records@[i as int],
                    ps.len() == positions@.len(),
                    forall|k: int|
                        0 <= k < ps.len() ==> (#[trigger] positions@[k]) as int == ps[k],
                    width == shorter(ps.len(), imp_vals@.len()),
                    row_of == imputed_row_at(ps, imp_vals@),
                    0 <= c <= width,
                    out@ == done + row_of(record).take(c as int),
                decreases width - c,
            {
                let value = match read_cell::<T>(&self.records[i], positions[c]) {
                    Some(value) => value,
                    None => imp_vals[c],
                };
                proof {
                    let row = row_of(record);
                    assert(row.take(c + 1) =~= row.take(c as int).push(row[c as int]));
                    assert(done + row.take(c + 1) =~= (done + row.take(c as int)).push(
                        row[c as int],
                    ));
                }
                out.push(value);
                c = c + 1;
            }
            proof {
                let row = row_of(record);
                assert(row.take(width as int) =~= row);
                let before = self.records@.take(i as int);
                assert(self.records@.take(i + 1) =~= before.push(record));
                before.lemma_flat_map_push(row_of, record);
            }
            i = i + 1;
        }
        proof {
            assert(self.records@.take(n as int) =~= self.records@);
        }
        Ok(out)
    }
}

} // verus!
