//! The constraint and type enforcer: validates a candidate row against
//! column types, NOT NULL, and primary-key uniqueness before any
//! mutation is committed. It never mutates state itself.

use vstd::prelude::*;
use vstd::string::*;

use crate::error::{DbError, DbErrorV};
use crate::model::{pk_index, rows_aligned, Column, ColumnV, Table};
use crate::values::{is_i32_literal, is_null_cell, is_null_str, parse_i32_str, str_eq};

verus! {

/// The enforcer's verdict on one cell against its column: a NULL in a
/// NOT NULL or primary column is missing; a non-NULL cell must parse as
/// a 32-bit integer for an `Int` column and must not exceed the maximum
/// length of a `Varchar` column. Type checks apply to non-NULL cells
/// only.
pub open spec fn cell_error(c: ColumnV, cell: Seq<char>) -> Option<DbErrorV> {
    if is_null_cell(cell) {
        if c.not_null || c.is_primary {
            Some(DbErrorV::MissingValue(c.name))
        } else {
            None
        }
    } else {
        match c.data_type {
            DataType::Int(_) => if !is_i32_literal(cell) {
                Some(DbErrorV::TypeMismatch(cell, c.name))
            } else {
                None
            },
            DataType::Varchar(m) => if cell.len() > m {
                Some(DbErrorV::ValueTooLong(c.name, m))
            } else {
                None
            },
        }
    }
}

/// The first violation among the cells of `row`, scanning columns in
/// declared order from position `i`.
pub open spec fn first_cell_error(cols: Seq<ColumnV>, row: Seq<Seq<char>>, i: int) -> Option<
    DbErrorV,
>
    decreases cols.len() - i,
{
    if i < 0 || i >= cols.len() {
        None
    } else {
        match cell_error(cols[i], row[i]) {
            Some(e) => Some(e),
            None => first_cell_error(cols, row, i + 1),
        }
    }
}

/// Checks one cell against its column.
pub fn cell_check(c: &Column, cell: &str) -> (r: Option<DbError>)
    ensures
        match r {
            Some(e) => cell_error(c@, cell@) == Some(e@),
            None => cell_error(c@, cell@) is None,
        },
{
    if is_null_str(cell) {
        if c.not_null || c.is_primary {
            Some(DbError::MissingValue(c.name.clone()))
        } else {
            None
        }
    } else {
        match c.data_type {
            DataType::Int(_) => {
                if parse_i32_str(cell).is_none() {
                    Some(DbError::TypeMismatch(cell.to_owned(), c.name.clone()))
                } else {
                    None
                }
            },
            DataType::Varchar(m) => {
                if cell.unicode_len() > m as usize {
                    Some(DbError::ValueTooLong(c.name.clone(), m))
                } else {
                    None
                }
            },
        }
    }
}

/// The uniqueness violation, if any: the candidate's primary cell is
/// non-NULL and equals the primary cell of some stored row.
pub open spec fn dup_pk_error(
    cols: Seq<ColumnV>,
    data: Seq<Seq<Seq<char>>>,
    row: Seq<Seq<char>>,
) -> Option<DbErrorV> {
    match pk_index(cols) {
        Some(k) => if !is_null_cell(row[k]) && (exists|i: int|
            0 <= i < data.len() && (#[trigger] data[i])[k] == row[k]) {
            Some(DbErrorV::DuplicateKey(row[k]))
        } else {
            None
        },
        None => None,
    }
}

/// The enforcer's verdict on a candidate row against a table with the
/// given schema and stored rows: arity first, then the per-cell checks
/// in column order, then primary-key uniqueness.
pub open spec fn validate_spec(
    cols: Seq<ColumnV>,
    data: Seq<Seq<Seq<char>>>,
    row: Seq<Seq<char>>,
) -> Option<DbErrorV> {
    if row.len() != cols.len() {
        Some(DbErrorV::ColumnCountMismatch)
    } else {
        match first_cell_error(cols, row, 0) {
            Some(e) => Some(e),
            None => dup_pk_error(cols, data, row),
        }
    }
}

use crate::model::DataType;

impl Table {
    /// Validates a candidate row against this table's schema and stored
    /// rows; `Ok` exactly when the enforcer finds no violation.
    pub fn validate_row(&self, row: &Vec<String>) -> (r: Result<(), DbError>)
        requires
            rows_aligned(self@),
        ensures
            match r {
                Ok(()) => validate_spec(self@.columns, self@.data, row.deep_view()) is None,
                Err(e) => validate_spec(self@.columns, self@.data, row.deep_view()) == Some(e@),
            },
    {
        let ghost colsv = self@.columns;
        let ghost rowv = row.deep_view();
        if row.len() != self.columns.len() {
            return Err(DbError::ColumnCountMismatch);
        }
        let mut i: usize = 0;
        while i < self.columns.len()
            invariant
                i <= colsv.len(),
                colsv == self@.columns,
                rowv == row.deep_view(),
                rowv.len() == colsv.len(),
                first_cell_error(colsv, rowv, 0) == first_cell_error(colsv, rowv, i as int),
            decreases colsv.len() - i,
        {
            let c = &self.columns[i];
            let cell = &row[i];
            proof {
                assert(colsv[i as int] == c@);
                assert(rowv[i as int] == cell@);
            }
            if is_null_str(cell.as_str()) {
                if c.not_null || c.is_primary {
                    return Err(DbError::MissingValue(c.name.clone()));
                }
            } else {
                match c.data_type {
                    DataType::Int(_) => {
                        if parse_i32_str(cell.as_str()).is_none() {
                            return Err(DbError::TypeMismatch(cell.clone(), c.name.clone()));
                        }
                    },
                    DataType::Varchar(m) => {
                        let len = cell.as_str().unicode_len();
                        if len > m as usize {
                            return Err(DbError::ValueTooLong(c.name.clone(), m));
                        }
                    },
                }
            }
            i += 1;
        }
        match self.find_pk_col() {
            None => Ok(()),
            Some(k) => {
                let cell = &row[k];
                if is_null_str(cell.as_str()) {
                    return Ok(());
                }
                let mut j: usize = 0;
                while j < self.data.len()
                    invariant
                        j <= self@.data.len(),
                        k < self@.columns.len(),
                        rowv == row.deep_view(),
                        colsv == self@.columns,
                        rowv.len() == colsv.len(),
                        rows_aligned(self@),
                        cell@ == rowv[k as int],
                        !is_null_cell(rowv[k as int]),
                        first_cell_error(colsv, rowv, 0) is None,
                        pk_index(self@.columns) == Some(k as int),
                        forall|t: int| 0 <= t < j ==> (#[trigger] self@.data[t])[k as int]
                            != rowv[k as int],
                    decreases self@.data.len() - j,
                {
                    proof {
                        assert(self.data@[j as int].deep_view() == self@.data[j as int]);
                        assert(self@.data[j as int].len() == colsv.len());
                    }
                    if str_eq(self.data[j][k].as_str(), cell.as_str()) {
                        proof {
                            assert((#[trigger] self@.data[j as int])[k as int] == rowv[k as int]);
                        }
                        return Err(DbError::DuplicateKey(cell.clone()));
                    }
                    j += 1;
                }
                Ok(())
            },
        }
    }

    /// Finds this table's primary column, if it declares one.
    pub fn find_pk_col(&self) -> (r: Option<usize>)
        ensures
            match r {
                Some(i) => pk_index(self@.columns) == Some(i as int) && i < self@.columns.len(),
                None => pk_index(self@.columns) is None,
            },
    {
        crate::model::find_pk(&self.columns)
    }
}

} // verus!
