//! The value and schema model: `DataType`, `Column`, `Table`, `Database`,
//! their mathematical views, the structural invariants every committed
//! table satisfies, and the lookup helpers the executor builds on.
//!
//! Invariants of a well-formed table: every stored row has exactly one
//! cell per column, and when the table has a primary column no two rows
//! carry the same non-NULL primary cell.

use vstd::prelude::*;
use vstd::string::*;

use crate::values::{is_null_cell, lower_seq, str_eq, trimmed};

verus! {

/// The closed set of column types: 32-bit integers (the width is
/// informational only) and length-bounded strings.
#[derive(Clone, Copy, PartialEq, Eq, Structural, Debug)]
pub enum DataType {
    Int(u32),
    Varchar(u32),
}

impl View for DataType {
    type V = DataType;

    open spec fn view(&self) -> DataType {
        *self
    }
}

impl DeepView for DataType {
    type V = DataType;

    open spec fn deep_view(&self) -> DataType {
        *self
    }
}

/// One column of a table's schema.
#[derive(Clone, Debug)]
pub struct Column {
    pub name: String,
    pub data_type: DataType,
    pub is_primary: bool,
    pub not_null: bool,
}

/// The mathematical reading of a column.
#[verifier::ext_equal]
pub ghost struct ColumnV {
    pub name: Seq<char>,
    pub data_type: DataType,
    pub is_primary: bool,
    pub not_null: bool,
}

impl View for Column {
    type V = ColumnV;

    open spec fn view(&self) -> ColumnV {
        ColumnV {
            name: self.name@,
            data_type: self.data_type,
            is_primary: self.is_primary,
            not_null: self.not_null,
        }
    }
}

impl DeepView for Column {
    type V = ColumnV;

    open spec fn deep_view(&self) -> ColumnV {
        self.view()
    }
}

/// A named table: an ordered schema and an ordered sequence of rows,
/// each row one string cell per column.
#[derive(Clone, Debug)]
pub struct Table {
    pub name: String,
    pub columns: Vec<Column>,
    pub data: Vec<Vec<String>>,
}

/// The mathematical reading of a table.
#[verifier::ext_equal]
pub ghost struct TableV {
    pub name: Seq<char>,
    pub columns: Seq<ColumnV>,
    pub data: Seq<Seq<Seq<char>>>,
}

impl View for Table {
    type V = TableV;

    open spec fn view(&self) -> TableV {
        TableV { name: self.name@, columns: self.columns.deep_view(), data: self.data.deep_view() }
    }
}

impl DeepView for Table {
    type V = TableV;

    open spec fn deep_view(&self) -> TableV {
        self.view()
    }
}

/// The set of tables, keyed by name.
#[derive(Debug)]
pub struct Database {
    pub tables: Vec<Table>,
}

impl View for Database {
    type V = Seq<TableV>;

    open spec fn view(&self) -> Seq<TableV> {
        self.tables.deep_view()
    }
}

/// The index of the first column with the given (case-sensitive) name.
pub open spec fn col_index(cols: Seq<ColumnV>, name: Seq<char>) -> Option<int>
    decreases cols.len(),
{
    if cols.len() == 0 {
        None
    } else if cols[0].name == name {
        Some(0int)
    } else {
        match col_index(cols.drop_first(), name) {
            Some(i) => Some(i + 1),
            None => None,
        }
    }
}

/// The index of the first column marked primary, the table's key.
pub open spec fn pk_index(cols: Seq<ColumnV>) -> Option<int>
    decreases cols.len(),
{
    if cols.len() == 0 {
        None
    } else if cols[0].is_primary {
        Some(0int)
    } else {
        match pk_index(cols.drop_first()) {
            Some(i) => Some(i + 1),
            None => None,
        }
    }
}

/// The index of the first table with the given (case-sensitive) name.
pub open spec fn find_table(tables: Seq<TableV>, name: Seq<char>) -> Option<int>
    decreases tables.len(),
{
    if tables.len() == 0 {
        None
    } else if tables[0].name == name {
        Some(0int)
    } else {
        match find_table(tables.drop_first(), name) {
            Some(i) => Some(i + 1),
            None => None,
        }
    }
}

/// Whether a table name is already taken, compared case-insensitively
/// against the trimmed candidate (the existence check of `create_table`).
pub open spec fn name_taken(tables: Seq<TableV>, name: Seq<char>) -> bool {
    exists|i: int|
        0 <= i < tables.len() && lower_seq(#[trigger] tables[i].name) == lower_seq(trimmed(name))
}

/// Every stored row has exactly one cell per column.
pub open spec fn rows_aligned(t: TableV) -> bool {
    forall|i: int| 0 <= i < t.data.len() ==> (#[trigger] t.data[i]).len() == t.columns.len()
}

/// No two rows carry the same non-NULL primary cell.
pub open spec fn pk_unique(t: TableV) -> bool {
    match pk_index(t.columns) {
        Some(k) => forall|i: int, j: int|
            0 <= i < j < t.data.len() && !is_null_cell(#[trigger] t.data[i][k]) && !is_null_cell(
                #[trigger] t.data[j][k],
            ) ==> t.data[i][k] != t.data[j][k],
        None => true,
    }
}

/// The invariant of every committed table.
pub open spec fn table_wf(t: TableV) -> bool {
    rows_aligned(t) && pk_unique(t)
}

/// The invariant of a whole database: every table is well formed.
pub open spec fn db_wf(tables: Seq<TableV>) -> bool {
    forall|i: int| 0 <= i < tables.len() ==> table_wf(#[trigger] tables[i])
}

/// Looks a column up by name, returning the first match.
pub fn find_col(cols: &Vec<Column>, name: &str) -> (r: Option<usize>)
    ensures
        match r {
            Some(i) => col_index(cols.deep_view(), name@) == Some(i as int) && i < cols@.len(),
            None => col_index(cols.deep_view(), name@) is None,
        },
{
    let mut i: usize = 0;
    while i < cols.len()
        invariant
            i <= cols@.len(),
            forall|k: int| 0 <= k < i ==> (#[trigger] cols.deep_view()[k]).name != name@,
        decreases cols@.len() - i,
    {
        if str_eq(cols[i].name.as_str(), name) {
            proof {
                lemma_col_index_first(cols.deep_view(), name@, i as int);
            }
            return Some(i);
        }
        i += 1;
    }
    proof {
        lemma_col_index_none(cols.deep_view(), name@);
    }
    None
}

proof fn lemma_col_index_first(cols: Seq<ColumnV>, name: Seq<char>, i: int)
    requires
        0 <= i < cols.len(),
        cols[i].name == name,
        forall|k: int| 0 <= k < i ==> (#[trigger] cols[k]).name != name,
    ensures
        col_index(cols, name) == Some(i),
    decreases cols.len(),
{
    if i > 0 {
        lemma_col_index_first(cols.drop_first(), name, i - 1);
    }
}

proof fn lemma_col_index_none(cols: Seq<ColumnV>, name: Seq<char>)
    requires
        forall|k: int| 0 <= k < cols.len() ==> (#[trigger] cols[k]).name != name,
    ensures
        col_index(cols, name) is None,
    decreases cols.len(),
{
    if cols.len() > 0 {
        lemma_col_index_none(cols.drop_first(), name);
    }
}

/// Finds the primary column, if the table declares one.
pub fn find_pk(cols: &Vec<Column>) -> (r: Option<usize>)
    ensures
        match r {
            Some(i) => pk_index(cols.deep_view()) == Some(i as int) && i < cols@.len(),
            None => pk_index(cols.deep_view()) is None,
        },
{
    let mut i: usize = 0;
    while i < cols.len()
        invariant
            i <= cols@.len(),
            forall|k: int| 0 <= k < i ==> !(#[trigger] cols.deep_view()[k]).is_primary,
        decreases cols@.len() - i,
    {
        if cols[i].is_primary {
            proof {
                lemma_pk_index_first(cols.deep_view(), i as int);
            }
            return Some(i);
        }
        i += 1;
    }
    proof {
        lemma_pk_index_none(cols.deep_view());
    }
    None
}

/// The primary index, when there is one, points at a column marked
/// primary.
pub proof fn lemma_pk_index_is_primary(cols: Seq<ColumnV>)
    ensures
        pk_index(cols) matches Some(k) ==> 0 <= k < cols.len() && cols[k].is_primary,
    decreases cols.len(),
{
    if cols.len() > 0 && !cols[0].is_primary {
        lemma_pk_index_is_primary(cols.drop_first());
    }
}

proof fn lemma_pk_index_first(cols: Seq<ColumnV>, i: int)
    requires
        0 <= i < cols.len(),
        cols[i].is_primary,
        forall|k: int| 0 <= k < i ==> !(#[trigger] cols[k]).is_primary,
    ensures
        pk_index(cols) == Some(i),
    decreases cols.len(),
{
    if i > 0 {
        lemma_pk_index_first(cols.drop_first(), i - 1);
    }
}

proof fn lemma_pk_index_none(cols: Seq<ColumnV>)
    requires
        forall|k: int| 0 <= k < cols.len() ==> !(#[trigger] cols[k]).is_primary,
    ensures
        pk_index(cols) is None,
    decreases cols.len(),
{
    if cols.len() > 0 {
        lemma_pk_index_none(cols.drop_first());
    }
}

impl Database {
    /// Looks a table up by exact name, returning the first match.
    pub fn find_table_idx(&self, name: &str) -> (r: Option<usize>)
        ensures
            match r {
                Some(i) => find_table(self@, name@) == Some(i as int) && i < self@.len(),
                None => find_table(self@, name@) is None,
            },
    {
        let mut i: usize = 0;
        while i < self.tables.len()
            invariant
                i <= self@.len(),
                forall|k: int| 0 <= k < i ==> (#[trigger] self@[k]).name != name@,
            decreases self@.len() - i,
        {
            if str_eq(self.tables[i].name.as_str(), name) {
                proof {
                    lemma_find_table_first(self@, name@, i as int);
                }
                return Some(i);
            }
            i += 1;
        }
        proof {
            lemma_find_table_none(self@, name@);
        }
        None
    }
}

proof fn lemma_find_table_first(tables: Seq<TableV>, name: Seq<char>, i: int)
    requires
        0 <= i < tables.len(),
        tables[i].name == name,
        forall|k: int| 0 <= k < i ==> (#[trigger] tables[k]).name != name,
    ensures
        find_table(tables, name) == Some(i),
    decreases tables.len(),
{
    if i > 0 {
        lemma_find_table_first(tables.drop_first(), name, i - 1);
    }
}

proof fn lemma_find_table_none(tables: Seq<TableV>, name: Seq<char>)
    requires
        forall|k: int| 0 <= k < tables.len() ==> (#[trigger] tables[k]).name != name,
    ensures
        find_table(tables, name) is None,
    decreases tables.len(),
{
    if tables.len() > 0 {
        lemma_find_table_none(tables.drop_first(), name);
    }
}

} // verus!
