//! The query executor: create, insert, select, update, delete and drop
//! against the in-memory model, using the enforcer and the predicate
//! engine. Every operation validates before it mutates; failures are
//! reported as values and leave no partially-built row or table behind.

use vstd::prelude::*;
use vstd::string::*;

use crate::constraints::{cell_check, cell_error, validate_spec};
use crate::error::{DbError, DbErrorV};
use crate::predicate::{compile_spec, eval_pred, pred_wf, Predicate};
use crate::sort::{keys_wf, sort_pairs, sort_rows, SelPair, SelPairV, SortKey, SortKeyV};
use crate::model::{
    col_index, db_wf, find_col, find_table, name_taken, pk_index, pk_unique, rows_aligned,
    table_wf, Column, ColumnV, Database, DataType, Table, TableV,
};
use crate::values::{
    is_null_cell, lower_seq, normalize_cell, normalize_cell_str, str_eq, str_eq_ic, trimmed,
    trim_str,
};
use vstd::pervasive::VecAdditionalExecFns;

verus! {

/// The column sequence a `create_table` call describes: one column per
/// `(name, type, primary, not-null)` tuple, in order.
pub open spec fn cols_of_defs(defs: Seq<(Seq<char>, DataType, bool, bool)>) -> Seq<ColumnV> {
    defs.map_values(
        |d: (Seq<char>, DataType, bool, bool)|
            ColumnV { name: d.0, data_type: d.1, is_primary: d.2, not_null: d.3 },
    )
}

/// Whether `name` occurs in `names` (exact, case-sensitive).
pub open spec fn name_in(names: Seq<Seq<char>>, name: Seq<char>) -> bool {
    exists|j: int| 0 <= j < names.len() && names[j] == name
}

/// The tables that survive a `drop` of the given names.
pub open spec fn drop_filter(tables: Seq<TableV>, names: Seq<Seq<char>>) -> Seq<TableV> {
    tables.filter(|t: TableV| !name_in(names, t.name))
}

/// Whether some requested name does not resolve to a table.
pub open spec fn some_missing(tables: Seq<TableV>, names: Seq<Seq<char>>) -> bool {
    exists|j: int| 0 <= j < names.len() && find_table(tables, #[trigger] names[j]) is None
}

/// Every cell of a row, normalized as on write.
pub open spec fn normalize_row(row: Seq<Seq<char>>) -> Seq<Seq<char>> {
    row.map_values(|c: Seq<char>| normalize_cell(c))
}

/// Folds a column-name list over a default row: position `j` onward of
/// `names` maps each supplied value onto its column's position in `acc`;
/// an unknown name is an error. A name listed twice keeps its last value.
pub open spec fn fill_row(
    cols: Seq<ColumnV>,
    acc: Seq<Seq<char>>,
    names: Seq<Seq<char>>,
    vals: Seq<Seq<char>>,
    j: int,
) -> Result<Seq<Seq<char>>, DbErrorV>
    decreases names.len() - j,
{
    if j < 0 || j >= names.len() {
        Ok(acc)
    } else {
        match col_index(cols, names[j]) {
            None => Err(DbErrorV::ColumnNotFound(names[j])),
            Some(i) => fill_row(cols, acc.update(i, vals[j]), names, vals, j + 1),
        }
    }
}

/// The full positional row an insert statement supplies: with a column
/// list, unlisted positions default to the NULL sentinel; without one,
/// the row must supply exactly one value per column.
pub open spec fn build_full_row(
    cols: Seq<ColumnV>,
    col_list: Option<Seq<Seq<char>>>,
    vals: Seq<Seq<char>>,
) -> Result<Seq<Seq<char>>, DbErrorV> {
    match col_list {
        Some(names) => if names.len() != vals.len() {
            Err(DbErrorV::ColumnCountMismatch)
        } else {
            fill_row(cols, Seq::new(cols.len(), |i: int| Seq::empty()), names, vals, 0)
        },
        None => if vals.len() != cols.len() {
            Err(DbErrorV::ColumnCountMismatch)
        } else {
            Ok(vals)
        },
    }
}

/// One row of an insert: build the full row, normalize every cell, and
/// run the enforcer against the rows already stored.
pub open spec fn insert_row_spec(
    cols: Seq<ColumnV>,
    data: Seq<Seq<Seq<char>>>,
    col_list: Option<Seq<Seq<char>>>,
    raw: Seq<Seq<char>>,
) -> Result<Seq<Seq<char>>, DbErrorV> {
    match build_full_row(cols, col_list, raw) {
        Err(e) => Err(e),
        Ok(full) => {
            let norm = normalize_row(full);
            match validate_spec(cols, data, norm) {
                Some(e) => Err(e),
                None => Ok(norm),
            }
        },
    }
}

/// The result of a multi-row insert: the stored rows afterwards and
/// either the count of rows appended or the error that stopped the call.
/// A failure on one row keeps the rows already appended before it.
pub open spec fn insert_all_spec(
    cols: Seq<ColumnV>,
    data: Seq<Seq<Seq<char>>>,
    col_list: Option<Seq<Seq<char>>>,
    rows: Seq<Seq<Seq<char>>>,
) -> (Seq<Seq<Seq<char>>>, Result<int, DbErrorV>)
    decreases rows.len(),
{
    if rows.len() == 0 {
        (data, Ok(0int))
    } else {
        match insert_row_spec(cols, data, col_list, rows[0]) {
            Err(e) => (data, Err(e)),
            Ok(r) => {
                let rec = insert_all_spec(cols, data.push(r), col_list, rows.drop_first());
                (
                    rec.0,
                    match rec.1 {
                        Ok(n) => Ok(n + 1),
                        Err(e) => Err(e),
                    },
                )
            },
        }
    }
}

/// Shifts a count result by `k` appended rows.
pub open spec fn add_count(r: Result<int, DbErrorV>, k: int) -> Result<int, DbErrorV> {
    match r {
        Ok(n) => Ok(n + k),
        Err(e) => Err(e),
    }
}

/// Whether a row satisfies an optional condition: an absent condition
/// matches every row; a condition that does not compile matches none (a
/// compile failure away from the top level is condition-evaluation
/// failure, not a statement error); otherwise the compiled predicate
/// decides.
pub open spec fn cond_matches(
    cols: Seq<ColumnV>,
    cond: Option<Seq<char>>,
    row: Seq<Seq<char>>,
) -> bool {
    match cond {
        None => true,
        Some(s) => match compile_spec(cols, s) {
            Some(p) => eval_pred(p, row),
            None => false,
        },
    }
}

/// The rows a `delete` keeps: those the condition does not match.
pub open spec fn delete_result(
    cols: Seq<ColumnV>,
    data: Seq<Seq<Seq<char>>>,
    cond: Option<Seq<char>>,
) -> Seq<Seq<Seq<char>>> {
    data.filter(|row: Seq<Seq<char>>| !cond_matches(cols, cond, row))
}

impl Table {
    /// Compiles an optional condition against this table once, for
    /// reuse against each row. The flag says the condition failed to
    /// compile and therefore matches nothing.
    fn compile_cond(&self, condition: Option<&str>) -> (r: (Option<Predicate>, bool))
        ensures
            r.1 ==> forall|row: Seq<Seq<char>>|
                !cond_matches(self@.columns, condition.deep_view(), row),
            !r.1 && r.0 is Some ==> pred_wf(r.0.unwrap()@, self@.columns.len() as int) && forall|
                row: Seq<Seq<char>>,
            | cond_matches(self@.columns, condition.deep_view(), row) == eval_pred(
                r.0.unwrap()@,
                row,
            ),
            !r.1 && r.0 is None ==> forall|row: Seq<Seq<char>>|
                cond_matches(self@.columns, condition.deep_view(), row),
    {
        match condition {
            None => (None, false),
            Some(c) => match Database::parse_condition(c, self) {
                Ok(p) => (Some(p), false),
                Err(_) => (None, true),
            },
        }
    }
}

/// Applies the assignment list to row `i` of `data`, item by item from
/// position `j`: each value is normalized as on insert, an unknown
/// column name is skipped, and each applied value must pass the cell
/// checks and — for a primary column — must not equal the primary cell
/// of any other current row (renaming a key to its own value is
/// allowed). Returns the row as far as it got and the first violation;
/// assignments made before a failing item stand.
pub open spec fn apply_set_spec(
    cols: Seq<ColumnV>,
    data: Seq<Seq<Seq<char>>>,
    i: int,
    set: Seq<(Seq<char>, Seq<char>)>,
    j: int,
) -> (Seq<Seq<char>>, Option<DbErrorV>)
    decreases set.len() - j,
{
    if j < 0 || j >= set.len() {
        (data[i], None)
    } else {
        let v = normalize_cell(set[j].1);
        match col_index(cols, set[j].0) {
            None => apply_set_spec(cols, data, i, set, j + 1),
            Some(ci) => match cell_error(cols[ci], v) {
                Some(e) => (data[i], Some(e)),
                None => if cols[ci].is_primary && (exists|t: int|
                    0 <= t < data.len() && t != i && (#[trigger] data[t])[ci] == v) {
                    (data[i], Some(DbErrorV::DuplicateKey(v)))
                } else {
                    apply_set_spec(cols, data.update(i, data[i].update(ci, v)), i, set, j + 1)
                },
            },
        }
    }
}

/// The result of an `update`: walk the rows in order from position `i`;
/// each row the condition matches gets the assignment list applied and
/// counts on success. A violation stops the call: the failing row keeps
/// the assignments already applied, earlier rows stay updated.
pub open spec fn update_rows_spec(
    cols: Seq<ColumnV>,
    data: Seq<Seq<Seq<char>>>,
    set: Seq<(Seq<char>, Seq<char>)>,
    cond: Option<Seq<char>>,
    i: int,
) -> (Seq<Seq<Seq<char>>>, Result<int, DbErrorV>)
    decreases data.len() - i,
{
    if i < 0 || i >= data.len() {
        (data, Ok(0int))
    } else if !cond_matches(cols, cond, data[i]) {
        update_rows_spec(cols, data, set, cond, i + 1)
    } else {
        let ap = apply_set_spec(cols, data, i, set, 0);
        let data2 = data.update(i, ap.0);
        match ap.1 {
            Some(e) => (data2, Err(e)),
            None => {
                let rec = update_rows_spec(cols, data2, set, cond, i + 1);
                (rec.0, add_count(rec.1, 1))
            },
        }
    }
}

/// Replacing one row with a cell-wise update that passed the enforcer's
/// checks keeps the table invariant: lengths are preserved, and the new
/// primary cell either kept its old value or was checked against every
/// other row.
proof fn lemma_update_keeps_wf(
    cols: Seq<ColumnV>,
    drs: Seq<Seq<Seq<char>>>,
    i: int,
    wdv: Seq<Seq<char>>,
    tv: TableV,
)
    requires
        tv.columns == cols,
        tv.data == drs.update(i, wdv),
        0 <= i < drs.len(),
        wdv.len() == cols.len(),
        forall|k: int| 0 <= k < drs.len() ==> (#[trigger] drs[k]).len() == cols.len(),
        match pk_index(cols) {
            Some(kp) => (forall|a: int, b: int|
                0 <= a < b < drs.len() && !is_null_cell(#[trigger] drs[a][kp]) && !is_null_cell(
                    #[trigger] drs[b][kp],
                ) ==> drs[a][kp] != drs[b][kp]) && (wdv[kp] == drs[i][kp] || (!is_null_cell(
                wdv[kp],
            ) && forall|tt: int|
                0 <= tt < drs.len() && tt != i ==> (#[trigger] drs[tt])[kp] != wdv[kp])),
            None => true,
        },
    ensures
        table_wf(tv),
{
    assert(rows_aligned(tv));
    if pk_index(cols) is Some {
        let kp = pk_index(cols).unwrap();
        assert forall|a: int, b: int|
            0 <= a < b < tv.data.len() && !is_null_cell(#[trigger] tv.data[a][kp])
                && !is_null_cell(#[trigger] tv.data[b][kp]) implies tv.data[a][kp]
            != tv.data[b][kp] by {
            if a != i && b != i {
                assert(tv.data[a] == drs[a]);
                assert(tv.data[b] == drs[b]);
            } else if a == i {
                assert(tv.data[a] == wdv);
                assert(tv.data[b] == drs[b]);
            } else {
                assert(tv.data[a] == drs[a]);
                assert(tv.data[b] == wdv);
            }
        }
    }
    assert(pk_unique(tv));
}

/// Whether a projection list is the wildcard, which expands to all
/// columns in schema order.
pub open spec fn is_wildcard(req: Seq<Seq<char>>) -> bool {
    req.len() == 1 && req[0].len() == 1 && req[0][0] == '*'
}

/// Resolves the requested column names from position `j` onward to
/// their schema positions; an unknown name is an error.
pub open spec fn resolve_cols_from(cols: Seq<ColumnV>, req: Seq<Seq<char>>, j: int) -> Result<
    Seq<int>,
    DbErrorV,
>
    decreases req.len() - j,
{
    if j < 0 || j >= req.len() {
        Ok(Seq::empty())
    } else {
        match col_index(cols, req[j]) {
            None => Err(DbErrorV::ColumnNotFound(req[j])),
            Some(ci) => match resolve_cols_from(cols, req, j + 1) {
                Ok(rest) => Ok(seq![ci] + rest),
                Err(e) => Err(e),
            },
        }
    }
}

/// The projection a `select` uses: the wildcard expands to every column
/// in declared order, anything else resolves name by name.
pub open spec fn resolve_cols(cols: Seq<ColumnV>, req: Seq<Seq<char>>) -> Result<
    Seq<int>,
    DbErrorV,
> {
    if is_wildcard(req) {
        Ok(Seq::new(cols.len(), |i: int| i))
    } else {
        resolve_cols_from(cols, req, 0)
    }
}

/// Resolves the `(column, descending)` sort list from position `j`
/// onward into sort keys carrying each column's position and type.
pub open spec fn resolve_keys_from(
    cols: Seq<ColumnV>,
    obs: Seq<(Seq<char>, bool)>,
    j: int,
) -> Result<Seq<SortKeyV>, DbErrorV>
    decreases obs.len() - j,
{
    if j < 0 || j >= obs.len() {
        Ok(Seq::empty())
    } else {
        match col_index(cols, obs[j].0) {
            None => Err(DbErrorV::ColumnNotFound(obs[j].0)),
            Some(ci) => match resolve_keys_from(cols, obs, j + 1) {
                Ok(rest) => Ok(
                    seq![(SortKeyV { col: ci, data_type: cols[ci].data_type, desc: obs[j].1 })]
                        + rest,
                ),
                Err(e) => Err(e),
            },
        }
    }
}

/// The rows the condition keeps, from position `i` onward, each tagged
/// with its storage position.
pub open spec fn filtered_pairs_from(
    cols: Seq<ColumnV>,
    data: Seq<Seq<Seq<char>>>,
    cond: Option<Seq<char>>,
    i: int,
) -> Seq<SelPairV>
    decreases data.len() - i,
{
    if i < 0 || i >= data.len() {
        Seq::empty()
    } else if cond_matches(cols, cond, data[i]) {
        seq![(SelPairV { idx: i, row: data[i] })] + filtered_pairs_from(cols, data, cond, i + 1)
    } else {
        filtered_pairs_from(cols, data, cond, i + 1)
    }
}

/// Projects each tagged row to the requested column positions.
pub open spec fn project_pairs(pairs: Seq<SelPairV>, idxs: Seq<int>) -> Seq<Seq<Seq<char>>> {
    pairs.map_values(|p: SelPairV| idxs.map_values(|c: int| p.row[c]))
}

/// What a successful `select` returns: filter on the full rows, sort
/// the filtered rows (when ordering was asked for) on the full rows,
/// and project last.
pub open spec fn select_ok_rows(
    t: TableV,
    idxs: Seq<int>,
    keys: Option<Seq<SortKeyV>>,
    cond: Option<Seq<char>>,
) -> Seq<Seq<Seq<char>>> {
    let fp = filtered_pairs_from(t.columns, t.data, cond, 0);
    let ordered = match keys {
        Some(ks) => sort_pairs(ks, fp),
        None => fp,
    };
    project_pairs(ordered, idxs)
}

/// Composes already-resolved column positions with those still to come.
pub open spec fn cols_compose(acc: Seq<int>, rest: Result<Seq<int>, DbErrorV>) -> Result<
    Seq<int>,
    DbErrorV,
> {
    match rest {
        Ok(r) => Ok(acc + r),
        Err(e) => Err(e),
    }
}

/// Composes already-resolved sort keys with those still to come.
pub open spec fn keys_compose(acc: Seq<SortKeyV>, rest: Result<Seq<SortKeyV>, DbErrorV>) -> Result<
    Seq<SortKeyV>,
    DbErrorV,
> {
    match rest {
        Ok(r) => Ok(acc + r),
        Err(e) => Err(e),
    }
}

/// A cell-for-cell copy of a row.
fn clone_row(row: &Vec<String>) -> (r: Vec<String>)
    ensures
        r.deep_view() == row.deep_view(),
{
    let mut out: Vec<String> = Vec::new();
    let mut k: usize = 0;
    while k < row.len()
        invariant
            k <= row@.len(),
            out.deep_view() =~= row.deep_view().take(k as int),
        decreases row@.len() - k,
    {
        let ghost dv0 = out.deep_view();
        out.push(row[k].clone());
        proof {
            assert(out.deep_view() =~= dv0.push(row.deep_view()[k as int]));
            assert(out.deep_view() =~= row.deep_view().take(k + 1));
        }
        k += 1;
    }
    proof {
        assert(out.deep_view() =~= row.deep_view());
    }
    out
}

/// Every cell of a row, normalized as on write.
fn normalize_vec(row: &Vec<String>) -> (r: Vec<String>)
    ensures
        r.deep_view() == normalize_row(row.deep_view()),
{
    let mut out: Vec<String> = Vec::new();
    let mut k: usize = 0;
    while k < row.len()
        invariant
            k <= row@.len(),
            out.deep_view() =~= normalize_row(row.deep_view()).take(k as int),
        decreases row@.len() - k,
    {
        let ghost dv0 = out.deep_view();
        out.push(normalize_cell_str(row[k].as_str()));
        proof {
            assert(out.deep_view() =~= dv0.push(normalize_cell(row.deep_view()[k as int])));
            assert(normalize_row(row.deep_view())[k as int] == normalize_cell(
                row.deep_view()[k as int],
            ));
            assert(out.deep_view() =~= normalize_row(row.deep_view()).take(k + 1));
        }
        k += 1;
    }
    proof {
        assert(out.deep_view() =~= normalize_row(row.deep_view()));
    }
    out
}

/// Builds the full positional row for an insert with a column list:
/// unlisted columns default to the NULL sentinel.
fn build_row(cols: &Vec<Column>, names: &Vec<String>, vals: &Vec<String>) -> (r: Result<
    Vec<String>,
    DbError,
>)
    ensures
        match r {
            Ok(v) => build_full_row(cols.deep_view(), Some(names.deep_view()), vals.deep_view())
                == Ok::<_, DbErrorV>(v.deep_view()) && v@.len() == cols@.len(),
            Err(e) => build_full_row(cols.deep_view(), Some(names.deep_view()), vals.deep_view())
                == Err::<Seq<Seq<char>>, _>(e@),
        },
{
    let ghost colsv = cols.deep_view();
    let ghost namesv = names.deep_view();
    let ghost valsv = vals.deep_view();
    if names.len() != vals.len() {
        return Err(DbError::ColumnCountMismatch);
    }
    let ghost default = Seq::new(colsv.len(), |x: int| Seq::<char>::empty());
    let mut f: Vec<String> = Vec::new();
    let mut k: usize = 0;
    while k < cols.len()
        invariant
            k <= colsv.len(),
            colsv == cols.deep_view(),
            default == Seq::new(colsv.len(), |x: int| Seq::<char>::empty()),
            f.deep_view() =~= default.take(k as int),
        decreases colsv.len() - k,
    {
        let ghost dv0 = f.deep_view();
        f.push(String::new());
        proof {
            assert(f.deep_view() =~= dv0.push(Seq::<char>::empty()));
            assert(f.deep_view() =~= default.take(k + 1));
        }
        k += 1;
    }
    proof {
        assert(f.deep_view() =~= default);
    }
    let mut j: usize = 0;
    while j < names.len()
        invariant
            j <= namesv.len(),
            colsv == cols.deep_view(),
            namesv == names.deep_view(),
            valsv == vals.deep_view(),
            namesv.len() == valsv.len(),
            default == Seq::new(colsv.len(), |x: int| Seq::<char>::empty()),
            f@.len() == colsv.len(),
            fill_row(colsv, default, namesv, valsv, 0) == fill_row(
                colsv,
                f.deep_view(),
                namesv,
                valsv,
                j as int,
            ),
        decreases namesv.len() - j,
    {
        match find_col(cols, names[j].as_str()) {
            None => {
                proof {
                    assert(namesv[j as int] == names@[j as int]@);
                }
                return Err(DbError::ColumnNotFound(names[j].clone()));
            },
            Some(ci) => {
                let ghost dv0 = f.deep_view();
                f.set(ci, vals[j].clone());
                proof {
                    assert(f.deep_view() =~= dv0.update(ci as int, valsv[j as int]));
                }
            },
        }
        j += 1;
    }
    proof {
        assert(fill_row(colsv, f.deep_view(), namesv, valsv, j as int) == Ok::<_, DbErrorV>(
            f.deep_view(),
        ));
    }
    Ok(f)
}

impl Table {
    /// Appends the given rows one at a time: each is completed from the
    /// optional column list, normalized, validated, and stored. A
    /// failure on row `k` aborts row `k` and the rest but keeps rows
    /// already appended in the same call.
    pub fn insert_rows(&mut self, columns: &Option<Vec<String>>, values: &Vec<Vec<String>>) -> (r:
        Result<usize, DbError>)
        requires
            table_wf(old(self)@),
        ensures
            table_wf(final(self)@),
            final(self)@.name == old(self)@.name,
            final(self)@.columns == old(self)@.columns,
            ({
                let rec = insert_all_spec(
                    old(self)@.columns,
                    old(self)@.data,
                    columns.deep_view(),
                    values.deep_view(),
                );
                final(self)@.data == rec.0 && (match (r, rec.1) {
                    (Ok(n), Ok(m)) => n as int == m,
                    (Err(e), Err(ev)) => e@ == ev,
                    _ => false,
                })
            }),
    {
        let ghost cols = self@.columns;
        let ghost data0 = self@.data;
        let ghost clist = columns.deep_view();
        let ghost valsv = values.deep_view();
        let ghost grec = insert_all_spec(cols, data0, clist, valsv);
        proof {
            assert(valsv.skip(0) =~= valsv);
        }
        let mut i: usize = 0;
        while i < values.len()
            invariant
                i <= valsv.len(),
                valsv == values.deep_view(),
                clist == columns.deep_view(),
                cols == self@.columns,
                self@.name == old(self)@.name,
                self@.columns == old(self)@.columns,
                cols == old(self)@.columns,
                data0 == old(self)@.data,
                grec == insert_all_spec(cols, data0, clist, valsv),
                table_wf(self@),
                ({
                    let rec = insert_all_spec(cols, self@.data, clist, valsv.skip(i as int));
                    grec == (rec.0, add_count(rec.1, i as int))
                }),
            decreases valsv.len() - i,
        {
            let row = &values[i];
            proof {
                assert(valsv[i as int] == row.deep_view());
                assert(valsv.skip(i as int)[0] == valsv[i as int]);
                assert(valsv.skip(i as int).drop_first() =~= valsv.skip(i as int + 1));
            }
            let built: Result<Vec<String>, DbError> = match columns {
                Some(names) => build_row(&self.columns, names, row),
                None => {
                    if row.len() != self.columns.len() {
                        Err(DbError::ColumnCountMismatch)
                    } else {
                        Ok(clone_row(row))
                    }
                },
            };
            let full = match built {
                Ok(f) => f,
                Err(e) => {
                    proof {
                        assert(build_full_row(cols, clist, valsv[i as int]) == Err::<
                            Seq<Seq<char>>,
                            _,
                        >(e@));
                        assert(insert_row_spec(cols, self@.data, clist, valsv[i as int])
                            == Err::<Seq<Seq<char>>, _>(e@));
                    }
                    return Err(e);
                },
            };
            let norm = normalize_vec(&full);
            match self.validate_row(&norm) {
                Err(e) => {
                    proof {
                        assert(insert_row_spec(cols, self@.data, clist, valsv[i as int])
                            == Err::<Seq<Seq<char>>, _>(e@));
                    }
                    return Err(e);
                },
                Ok(()) => {
                    let ghost d_i = self@.data;
                    let ghost nv = norm.deep_view();
                    proof {
                        assert(insert_row_spec(cols, d_i, clist, valsv[i as int])
                            == Ok::<_, DbErrorV>(nv));
                        assert(nv.len() == cols.len());
                    }
                    self.data.push(norm);
                    proof {
                        assert(self@.data =~= d_i.push(nv));
                        assert(rows_aligned(self@));
                        if pk_index(cols) is Some {
                            let k = pk_index(cols).unwrap();
                            assert forall|a: int, b: int|
                                0 <= a < b < self@.data.len() && !is_null_cell(
                                    #[trigger] self@.data[a][k],
                                ) && !is_null_cell(#[trigger] self@.data[b][k]) implies self@
                                .data[a][k] != self@.data[b][k] by {
                                if b == self@.data.len() - 1 {
                                    if self@.data[a][k] == nv[k] && !is_null_cell(nv[k]) {
                                        assert(crate::constraints::dup_pk_error(cols, d_i, nv)
                                            is Some);
                                    }
                                } else {
                                    assert(d_i[a] == self@.data[a] && d_i[b] == self@.data[b]);
                                }
                            }
                        }
                        assert(table_wf(self@));
                        let s_i = valsv.skip(i as int);
                        let rec2 = insert_all_spec(cols, d_i.push(nv), clist, s_i.drop_first());
                        assert(insert_all_spec(cols, d_i, clist, s_i) == (
                            rec2.0,
                            match rec2.1 {
                                Ok(n) => Ok::<int, DbErrorV>(n + 1),
                                Err(e) => Err(e),
                            },
                        ));
                        assert(add_count(
                            match rec2.1 {
                                Ok(n) => Ok::<int, DbErrorV>(n + 1),
                                Err(e) => Err(e),
                            },
                            i as int,
                        ) == add_count(rec2.1, i as int + 1));
                    }
                    i += 1;
                },
            }
        }
        proof {
            assert(valsv.skip(i as int) =~= Seq::<Seq<Seq<char>>>::empty());
        }
        Ok(i)
    }
}

impl Table {
    /// Applies the assignment list to every row the condition matches,
    /// in order, and returns how many rows were updated. A violation
    /// stops the call; the failing row keeps the assignments already
    /// applied and earlier rows stay updated.
    pub fn update_rows(&mut self, set: &Vec<(String, String)>, condition: Option<&str>) -> (r:
        Result<usize, DbError>)
        requires
            table_wf(old(self)@),
        ensures
            table_wf(final(self)@),
            final(self)@.name == old(self)@.name,
            final(self)@.columns == old(self)@.columns,
            ({
                let rec = update_rows_spec(
                    old(self)@.columns,
                    old(self)@.data,
                    set.deep_view(),
                    condition.deep_view(),
                    0,
                );
                final(self)@.data == rec.0 && (match (r, rec.1) {
                    (Ok(n), Ok(m)) => n as int == m,
                    (Err(e), Err(ev)) => e@ == ev,
                    _ => false,
                })
            }),
    {
        let ghost cols = self@.columns;
        let ghost data0 = self@.data;
        let ghost condv = condition.deep_view();
        let ghost setv = set.deep_view();
        let ghost grec = update_rows_spec(cols, data0, setv, condv, 0);
        let (pred, none_flag) = self.compile_cond(condition);
        let mut count: usize = 0;
        let mut i: usize = 0;
        while i < self.data.len()
            invariant
                i <= self@.data.len(),
                self@.data.len() == data0.len(),
                count <= i,
                cols == self@.columns,
                self@.name == old(self)@.name,
                self@.columns == old(self)@.columns,
                data0 == old(self)@.data,
                table_wf(self@),
                condv == condition.deep_view(),
                setv == set.deep_view(),
                none_flag ==> forall|row: Seq<Seq<char>>| !cond_matches(cols, condv, row),
                !none_flag && pred is Some ==> pred_wf(pred.unwrap()@, cols.len() as int)
                    && forall|row: Seq<Seq<char>>|
                    cond_matches(cols, condv, row) == eval_pred(pred.unwrap()@, row),
                !none_flag && pred is None ==> forall|row: Seq<Seq<char>>|
                    cond_matches(cols, condv, row),
                grec == update_rows_spec(cols, data0, setv, condv, 0),
                grec == ({
                    let rec = update_rows_spec(cols, self@.data, setv, condv, i as int);
                    (rec.0, add_count(rec.1, count as int))
                }),
            decreases self@.data.len() - i,
        {
            let ghost drs = self@.data;
            proof {
                assert(drs[i as int].len() == cols.len());
            }
            let matched = if none_flag {
                false
            } else {
                match &pred {
                    Some(pr) => pr.eval(&self.data[i]),
                    None => true,
                }
            };
            proof {
                assert(self.data@[i as int].deep_view() == drs[i as int]);
                assert(matched == cond_matches(cols, condv, drs[i as int]));
            }
            if matched {
                let mut work = clone_row(&self.data[i]);
                let mut j: usize = 0;
                proof {
                    assert(drs.update(i as int, work.deep_view()) =~= drs);
                }
                while j < set.len()
                    invariant
                        j <= setv.len(),
                        i < drs.len(),
                        i < self@.data.len(),
                        self@.data == drs,
                        self@.data.len() == data0.len(),
                        count <= i,
                        cols == self@.columns,
                        self@.name == old(self)@.name,
                        self@.columns == old(self)@.columns,
                        data0 == old(self)@.data,
                        table_wf(self@),
                        condv == condition.deep_view(),
                        setv == set.deep_view(),
                        matched,
                        cond_matches(cols, condv, drs[i as int]),
                        work.deep_view().len() == cols.len(),
                        grec == update_rows_spec(cols, data0, setv, condv, 0),
                        grec == ({
                            let rec = update_rows_spec(cols, self@.data, setv, condv, i as int);
                            (rec.0, add_count(rec.1, count as int))
                        }),
                        apply_set_spec(cols, drs, i as int, setv, 0) == apply_set_spec(
                            cols,
                            drs.update(i as int, work.deep_view()),
                            i as int,
                            setv,
                            j as int,
                        ),
                        match pk_index(cols) {
                            Some(kp) => work.deep_view()[kp] == drs[i as int][kp] || (
                            !is_null_cell(work.deep_view()[kp]) && forall|tt: int|
                                0 <= tt < drs.len() && tt != i ==> (#[trigger] drs[tt])[kp]
                                    != work.deep_view()[kp]),
                            None => true,
                        },
                    decreases setv.len() - j,
                {
                    let ghost dcur = drs.update(i as int, work.deep_view());
                    proof {
                        assert(setv[j as int] == (set@[j as int].0@, set@[j as int].1@));
                        assert(dcur[i as int] == work.deep_view());
                    }
                    let nv = normalize_cell_str(set[j].1.as_str());
                    match find_col(&self.columns, set[j].0.as_str()) {
                        None => {
                            proof {
                                assert(col_index(cols, setv[j as int].0) is None);
                            }
                        },
                        Some(ci) => {
                            proof {
                                assert(self.columns@[ci as int]@ == cols[ci as int]);
                                assert(col_index(cols, setv[j as int].0) == Some(ci as int));
                            }
                            match cell_check(&self.columns[ci], nv.as_str()) {
                                Some(e) => {
                                    proof {
                                        assert(cell_error(cols[ci as int], normalize_cell(
                                            setv[j as int].1,
                                        )) == Some(e@));
                                        assert(apply_set_spec(cols, dcur, i as int, setv, j as int)
                                            == (work.deep_view(), Some(e@)));
                                        assert(update_rows_spec(cols, drs, setv, condv, i as int)
                                            == (
                                        drs.update(i as int, work.deep_view()),
                                        Err::<int, DbErrorV>(e@),
                                        ));
                                    }
                                    let ghost wdv = work.deep_view();
                                    self.data.set(i, work);
                                    proof {
                                        assert(self@.data =~= drs.update(i as int, wdv));
                                        lemma_update_keeps_wf(cols, drs, i as int, wdv, self@);
                                    }
                                    return Err(e);
                                },
                                None => {
                                    proof {
                                        assert(cell_error(cols[ci as int], normalize_cell(
                                            setv[j as int].1,
                                        )) is None);
                                    }
                                    let is_pk = self.columns[ci].is_primary;
                                    let mut dup = false;
                                    if is_pk {
                                        let mut tt: usize = 0;
                                        while tt < self.data.len()
                                            invariant
                                                tt <= self@.data.len(),
                                                self@.data == drs,
                                                ci < cols.len(),
                                                cols == self@.columns,
                                                i < drs.len(),
                                                table_wf(self@),
                                                nv@ == normalize_cell(setv[j as int].1),
                                                dup ==> exists|x: int|
                                                    0 <= x < drs.len() && x != i && (
                                                    #[trigger] drs[x])[ci as int] == nv@,
                                                !dup ==> forall|x: int|
                                                    0 <= x < tt && x != i ==> (
                                                    #[trigger] drs[x])[ci as int] != nv@,
                                            decreases self@.data.len() - tt,
                                        {
                                            proof {
                                                assert(drs[tt as int].len() == cols.len());
                                                assert(self.data@[tt as int].deep_view()
                                                    == drs[tt as int]);
                                            }
                                            if tt != i && !dup && str_eq(
                                                self.data[tt][ci].as_str(),
                                                nv.as_str(),
                                            ) {
                                                dup = true;
                                            }
                                            tt += 1;
                                        }
                                    }
                                    if dup {
                                        proof {
                                            assert(exists|x: int|
                                                0 <= x < dcur.len() && x != i && (
                                                #[trigger] dcur[x])[ci as int] == nv@) by {
                                                let x = choose|x: int|
                                                    0 <= x < drs.len() && x != i && (
                                                    #[trigger] drs[x])[ci as int] == nv@;
                                                assert(dcur[x] == drs[x]);
                                                assert(0 <= x < dcur.len() && x != i && (
                                                dcur[x])[ci as int] == nv@);
                                            }
                                            assert(apply_set_spec(
                                                cols,
                                                dcur,
                                                i as int,
                                                setv,
                                                j as int,
                                            ) == (
                                            work.deep_view(),
                                            Some(DbErrorV::DuplicateKey(nv@)),
                                            ));
                                            assert(update_rows_spec(
                                                cols,
                                                drs,
                                                setv,
                                                condv,
                                                i as int,
                                            ) == (
                                            drs.update(i as int, work.deep_view()),
                                            Err::<int, DbErrorV>(DbErrorV::DuplicateKey(nv@)),
                                            ));
                                        }
                                        let ghost wdv = work.deep_view();
                                        self.data.set(i, work);
                                        proof {
                                            assert(self@.data =~= drs.update(i as int, wdv));
                                            lemma_update_keeps_wf(cols, drs, i as int, wdv, self@);
                                        }
                                        return Err(DbError::DuplicateKey(nv));
                                    }
                                    proof {
                                        assert(cols[ci as int].is_primary == is_pk);
                                        if is_pk {
                                            assert forall|x: int|
                                                0 <= x < dcur.len() && x != i implies (
                                            #[trigger] dcur[x])[ci as int] != nv@ by {
                                                assert(dcur[x] == drs[x]);
                                            }
                                        }
                                    }
                                    let ghost wdv0 = work.deep_view();
                                    work.set(ci, nv);
                                    proof {
                                        assert(work.deep_view() =~= wdv0.update(ci as int, nv@));
                                        assert(dcur.update(
                                            i as int,
                                            dcur[i as int].update(ci as int, nv@),
                                        ) =~= drs.update(i as int, work.deep_view()));
                                        crate::model::lemma_pk_index_is_primary(cols);
                                        if pk_index(cols) is Some {
                                            let kp = pk_index(cols).unwrap();
                                            if ci as int == kp {
                                                assert(cols[kp].is_primary);
                                                assert(is_pk);
                                                assert(!is_null_cell(nv@));
                                            }
                                        }
                                    }
                                },
                            }
                        },
                    }
                    j += 1;
                }
                proof {
                    let dcur = drs.update(i as int, work.deep_view());
                    assert(apply_set_spec(cols, dcur, i as int, setv, j as int) == (
                        work.deep_view(),
                        None::<DbErrorV>,
                    ));
                    assert(apply_set_spec(cols, drs, i as int, setv, 0) == (
                        work.deep_view(),
                        None::<DbErrorV>,
                    ));
                }
                let ghost wdv = work.deep_view();
                self.data.set(i, work);
                proof {
                    assert(self@.data =~= drs.update(i as int, wdv));
                    lemma_update_keeps_wf(cols, drs, i as int, wdv, self@);
                    let rec2 = update_rows_spec(cols, self@.data, setv, condv, i as int + 1);
                    assert(update_rows_spec(cols, drs, setv, condv, i as int) == (
                        rec2.0,
                        add_count(rec2.1, 1),
                    ));
                    assert(add_count(add_count(rec2.1, 1), count as int) == add_count(
                        rec2.1,
                        count as int + 1,
                    ));
                }
                count += 1;
            }
            i += 1;
        }
        proof {
            assert(update_rows_spec(cols, self@.data, setv, condv, i as int) == (
                self@.data,
                Ok::<int, DbErrorV>(0),
            ));
        }
        Ok(count)
    }
}

impl Database {
    /// A fresh database with no tables.
    pub fn new() -> (r: Database)
        ensures
            r@ =~= Seq::<TableV>::empty(),
            db_wf(r@),
    {
        Database { tables: Vec::new() }
    }

    /// Appends a new empty table, unless a table with the same name
    /// (trimmed, compared case-insensitively) already exists.
    pub fn create_table(
        &mut self,
        name: &str,
        columns: Vec<(String, DataType, bool, bool)>,
    ) -> (r: Result<(), DbError>)
        requires
            db_wf(old(self)@),
        ensures
            db_wf(final(self)@),
            if name_taken(old(self)@, name@) {
                final(self)@ == old(self)@ && (r matches Err(e) && e@ == DbErrorV::TableExists(
                    lower_seq(trimmed(name@)),
                ))
            } else {
                r is Ok && final(self)@ =~= old(self)@.push(
                    (TableV {
                        name: name@,
                        columns: cols_of_defs(columns.deep_view()),
                        data: Seq::empty(),
                    }),
                )
            },
    {
        let normalized = crate::values::lower_str(trim_str(name).as_str());
        proof {
            crate::values::lemma_lower_seq_idempotent(trimmed(name@));
        }
        let mut i: usize = 0;
        while i < self.tables.len()
            invariant
                i <= self@.len(),
                self@ == old(self)@,
                db_wf(self@),
                normalized@ == lower_seq(trimmed(name@)),
                forall|k: int| 0 <= k < i ==> lower_seq((#[trigger] self@[k]).name) != lower_seq(
                    trimmed(name@),
                ),
            decreases self@.len() - i,
        {
            proof {
                crate::values::lemma_lower_seq_idempotent(trimmed(name@));
            }
            if str_eq_ic(self.tables[i].name.as_str(), normalized.as_str()) {
                proof {
                    assert(lower_seq(self@[i as int].name) == lower_seq(trimmed(name@)));
                    assert(name_taken(self@, name@));
                }
                return Err(DbError::TableExists(normalized));
            }
            i += 1;
        }
        let mut cols: Vec<Column> = Vec::new();
        let mut j: usize = 0;
        while j < columns.len()
            invariant
                j <= columns@.len(),
                self@ == old(self)@,
                db_wf(self@),
                !name_taken(self@, name@),
                cols.deep_view() =~= cols_of_defs(columns.deep_view()).take(j as int),
            decreases columns@.len() - j,
        {
            let d = &columns[j];
            let ghost cdv0 = cols.deep_view();
            cols.push(
                Column {
                    name: d.0.clone(),
                    data_type: d.1,
                    is_primary: d.2,
                    not_null: d.3,
                },
            );
            proof {
                let dv = columns.deep_view();
                assert(dv[j as int] == columns@[j as int].deep_view());
                assert(cols_of_defs(dv)[j as int] == (ColumnV {
                    name: dv[j as int].0,
                    data_type: dv[j as int].1,
                    is_primary: dv[j as int].2,
                    not_null: dv[j as int].3,
                }));
                assert(cols.deep_view() =~= cdv0.push(cols_of_defs(dv)[j as int]));
                assert(cols.deep_view() =~= cols_of_defs(dv).take(j + 1));
            }
            j += 1;
        }
        proof {
            assert(cols.deep_view() =~= cols_of_defs(columns.deep_view()));
        }
        let t = Table { name: name.to_owned(), columns: cols, data: Vec::new() };
        proof {
            assert(t@.data =~= Seq::<Seq<Seq<char>>>::empty());
            assert(rows_aligned(t@));
            assert(table_wf(t@));
        }
        let ghost dv0 = self@;
        self.tables.push(t);
        proof {
            assert(self@ =~= dv0.push(t@));
            assert(db_wf(self@));
        }
        Ok(())
    }

    /// Inserts the given rows into the named table, returning how many
    /// were appended. Validation failure on one row stops the call but
    /// keeps the rows already appended (the documented non-atomic
    /// multi-row policy).
    pub fn insert(
        &mut self,
        table_name: &str,
        columns: Option<Vec<String>>,
        values: Vec<Vec<String>>,
    ) -> (r: Result<usize, DbError>)
        requires
            db_wf(old(self)@),
        ensures
            db_wf(final(self)@),
            match find_table(old(self)@, table_name@) {
                None => final(self)@ == old(self)@ && (r matches Err(e) && e@
                    == DbErrorV::TableNotFound(table_name@)),
                Some(ti) => ({
                    let rec = insert_all_spec(
                        old(self)@[ti].columns,
                        old(self)@[ti].data,
                        columns.deep_view(),
                        values.deep_view(),
                    );
                    final(self)@ =~= old(self)@.update(
                        ti,
                        (TableV {
                            name: old(self)@[ti].name,
                            columns: old(self)@[ti].columns,
                            data: rec.0,
                        }),
                    ) && (match (r, rec.1) {
                        (Ok(n), Ok(m)) => n as int == m,
                        (Err(e), Err(ev)) => e@ == ev,
                        _ => false,
                    })
                }),
            },
    {
        let ti = match self.find_table_idx(table_name) {
            None => {
                return Err(DbError::TableNotFound(table_name.to_owned()));
            },
            Some(ti) => ti,
        };
        let ghost dv0 = self@;
        let mut t = self.tables.remove(ti);
        proof {
            assert(t@ == dv0[ti as int]);
            assert(table_wf(t@));
        }
        let r = t.insert_rows(&columns, &values);
        self.tables.insert(ti, t);
        proof {
            assert(self@ =~= dv0.update(ti as int, t@));
            assert(db_wf(self@));
        }
        r
    }

    /// Runs a query: resolves the projection (`*` expands to all
    /// columns), resolves the sort keys, compiles the condition (a
    /// malformed condition is a statement error here, at top level),
    /// filters, sorts on the full rows, and projects last. The second
    /// component of a successful result says whether any row matched.
    pub fn select(
        &self,
        table_name: &str,
        columns: Vec<String>,
        condition: Option<&str>,
        order_by: Option<Vec<(String, bool)>>,
    ) -> (r: Result<(Vec<Vec<String>>, bool), DbError>)
        requires
            db_wf(self@),
        ensures
            match find_table(self@, table_name@) {
                None => r matches Err(e) && e@ == DbErrorV::TableNotFound(table_name@),
                Some(ti) => ({
                    let t = self@[ti];
                    let req = columns.deep_view();
                    let condv = condition.deep_view();
                    match resolve_cols(t.columns, req) {
                        Err(ev) => r matches Err(e) && e@ == ev,
                        Ok(idxs) => match (match order_by.deep_view() {
                            None => Ok(None),
                            Some(o) => match resolve_keys_from(t.columns, o, 0) {
                                Ok(ks) => Ok(Some(ks)),
                                Err(e) => Err(e),
                            },
                        }) {
                            Err(ev) => r matches Err(e) && e@ == ev,
                            Ok(keys) => if condv is Some && compile_spec(
                                t.columns,
                                condv.unwrap(),
                            ) is None {
                                r matches Err(e) && e@ matches DbErrorV::ConditionParseError(_)
                            } else {
                                r matches Ok(out) && out.0.deep_view() == select_ok_rows(
                                    t,
                                    idxs,
                                    keys,
                                    condv,
                                ) && out.1 == (out.0@.len() > 0)
                            },
                        },
                    }
                }),
            },
    {
        let ti = match self.find_table_idx(table_name) {
            None => {
                return Err(DbError::TableNotFound(table_name.to_owned()));
            },
            Some(ti) => ti,
        };
        let t = &self.tables[ti];
        let ghost tv = self@[ti as int];
        let ghost colsv = tv.columns;
        let ghost datav = tv.data;
        let ghost req = columns.deep_view();
        let ghost condv = condition.deep_view();
        proof {
            assert(t@ == tv);
            assert(table_wf(tv));
        }
        let ncols = t.columns.len();
        let wild = if columns.len() == 1 {
            let c0 = columns[0].as_str();
            c0.unicode_len() == 1 && c0.get_char(0) == '*'
        } else {
            false
        };
        proof {
            if columns@.len() == 1 {
                assert(req[0] == columns@[0]@);
            }
            assert(wild == is_wildcard(req));
        }
        let mut idxs: Vec<usize> = Vec::new();
        let ghost mut iseq: Seq<int> = Seq::empty();
        if wild {
            let mut k: usize = 0;
            while k < ncols
                invariant
                    k <= ncols,
                    idxs@.len() == k,
                    iseq.len() == k,
                    forall|m: int| 0 <= m < k ==> iseq[m] == m,
                    forall|m: int| 0 <= m < k ==> idxs@[m] as int == iseq[m],
                decreases ncols - k,
            {
                idxs.push(k);
                proof {
                    iseq = iseq.push(k as int);
                }
                k += 1;
            }
            proof {
                assert(iseq =~= Seq::new(colsv.len(), |i: int| i));
                assert(resolve_cols(colsv, req) == Ok::<_, DbErrorV>(iseq));
            }
        } else {
            let mut j: usize = 0;
            proof {
                assert(cols_compose(iseq, resolve_cols_from(colsv, req, 0)) == resolve_cols_from(
                    colsv,
                    req,
                    0,
                )) by {
                    if resolve_cols_from(colsv, req, 0) is Ok {
                        assert(iseq + resolve_cols_from(colsv, req, 0)->Ok_0
                            =~= resolve_cols_from(colsv, req, 0)->Ok_0);
                    }
                }
            }
            while j < columns.len()
                invariant
                    j <= req.len(),
                    req == columns.deep_view(),
                    colsv == self@[ti as int].columns,
                    ti < self@.len(),
                    find_table(self@, table_name@) == Some(ti as int),
                    !is_wildcard(req),
                    idxs@.len() == iseq.len(),
                    forall|m: int| 0 <= m < iseq.len() ==> idxs@[m] as int == #[trigger] iseq[m],
                    forall|m: int| 0 <= m < iseq.len() ==> 0 <= #[trigger] iseq[m] < colsv.len(),
                    resolve_cols_from(colsv, req, 0) == cols_compose(
                        iseq,
                        resolve_cols_from(colsv, req, j as int),
                    ),
                decreases req.len() - j,
            {
                proof {
                    assert(req[j as int] == columns@[j as int]@);
                }
                match find_col(&self.tables[ti].columns, columns[j].as_str()) {
                    None => {
                        proof {
                            assert(resolve_cols_from(colsv, req, j as int)
                                == Err::<Seq<int>, _>(DbErrorV::ColumnNotFound(req[j as int])));
                        }
                        return Err(DbError::ColumnNotFound(columns[j].clone()));
                    },
                    Some(ci) => {
                        idxs.push(ci);
                        proof {
                            assert(self.tables@[ti as int].columns.deep_view() == colsv);
                            assert(col_index(colsv, req[j as int]) == Some(ci as int));
                            let rest = resolve_cols_from(colsv, req, j + 1);
                            let iseq0 = iseq;
                            iseq = iseq.push(ci as int);
                            assert(resolve_cols_from(colsv, req, j as int) == (match rest {
                                Ok(r0) => Ok::<Seq<int>, DbErrorV>(seq![ci as int] + r0),
                                Err(e) => Err(e),
                            }));
                            if rest is Ok {
                                assert(iseq0 + (seq![ci as int] + rest->Ok_0)
                                    =~= iseq + rest->Ok_0);
                            }
                            assert(cols_compose(iseq0, resolve_cols_from(colsv, req, j as int))
                                == cols_compose(iseq, rest));
                        }
                    },
                }
                j += 1;
            }
            proof {
                assert(resolve_cols_from(colsv, req, j as int) == Ok::<_, DbErrorV>(
                    Seq::<int>::empty(),
                ));
                assert(iseq + Seq::<int>::empty() =~= iseq);
                assert(resolve_cols(colsv, req) == Ok::<_, DbErrorV>(iseq));
            }
        }
        let keys_opt: Option<Vec<SortKey>> = match &order_by {
            None => None,
            Some(obs) => {
                let ghost obsv = obs.deep_view();
                let mut keys: Vec<SortKey> = Vec::new();
                let mut j: usize = 0;
                proof {
                    assert(order_by.deep_view() == Some(obsv));
                    assert(keys_compose(keys.deep_view(), resolve_keys_from(colsv, obsv, 0))
                        == resolve_keys_from(colsv, obsv, 0)) by {
                        if resolve_keys_from(colsv, obsv, 0) is Ok {
                            assert(keys.deep_view() + resolve_keys_from(colsv, obsv, 0)->Ok_0
                                =~= resolve_keys_from(colsv, obsv, 0)->Ok_0);
                        }
                    }
                }
                while j < obs.len()
                    invariant
                        j <= obsv.len(),
                        obsv == obs.deep_view(),
                        order_by.deep_view() == Some(obsv),
                        colsv == self@[ti as int].columns,
                        ti < self@.len(),
                        find_table(self@, table_name@) == Some(ti as int),
                        req == columns.deep_view(),
                        resolve_cols(colsv, req) == Ok::<_, DbErrorV>(iseq),
                        keys_wf(keys.deep_view(), colsv.len() as int),
                        resolve_keys_from(colsv, obsv, 0) == keys_compose(
                            keys.deep_view(),
                            resolve_keys_from(colsv, obsv, j as int),
                        ),
                    decreases obsv.len() - j,
                {
                    proof {
                        assert(obsv[j as int] == obs@[j as int].deep_view());
                        assert(obsv[j as int].0 == obs@[j as int].0@);
                    }
                    match find_col(&self.tables[ti].columns, obs[j].0.as_str()) {
                        None => {
                            proof {
                                assert(resolve_keys_from(colsv, obsv, j as int)
                                    == Err::<Seq<SortKeyV>, _>(DbErrorV::ColumnNotFound(
                                    obsv[j as int].0,
                                )));
                            }
                            return Err(DbError::ColumnNotFound(obs[j].0.clone()));
                        },
                        Some(ci) => {
                            let ghost kdv0 = keys.deep_view();
                            proof {
                                assert(self.tables@[ti as int].columns@[ci as int]@ == colsv[ci as int]);
                            }
                            keys.push(
                                SortKey {
                                    col: ci,
                                    data_type: self.tables[ti].columns[ci].data_type,
                                    desc: obs[j].1,
                                },
                            );
                            proof {
                                let kv = (SortKeyV {
                                    col: ci as int,
                                    data_type: colsv[ci as int].data_type,
                                    desc: obsv[j as int].1,
                                });
                                assert(keys.deep_view() =~= kdv0.push(kv));
                                let ghost rest = resolve_keys_from(colsv, obsv, j + 1);
                                if rest is Ok {
                                    assert(kdv0 + (seq![kv] + rest->Ok_0) =~= keys.deep_view()
                                        + rest->Ok_0);
                                }
                            }
                        },
                    }
                    j += 1;
                }
                proof {
                    assert(resolve_keys_from(colsv, obsv, j as int) == Ok::<_, DbErrorV>(
                        Seq::<SortKeyV>::empty(),
                    ));
                    assert(keys.deep_view() + Seq::<SortKeyV>::empty() =~= keys.deep_view());
                    assert(resolve_keys_from(colsv, obsv, 0) == Ok::<_, DbErrorV>(
                        keys.deep_view(),
                    ));
                }
                Some(keys)
            },
        };
        let pred_opt: Option<Predicate> = match condition {
            None => None,
            Some(c) => match Database::parse_condition(c, t) {
                Ok(p) => Some(p),
                Err(e) => {
                    return Err(e);
                },
            },
        };
        let mut pairs: Vec<SelPair> = Vec::new();
        let mut i: usize = 0;
        proof {
            assert(pairs.deep_view() + filtered_pairs_from(colsv, datav, condv, 0)
                =~= filtered_pairs_from(colsv, datav, condv, 0));
        }
        while i < t.data.len()
            invariant
                i <= datav.len(),
                ti < self@.len(),
                t == &self.tables@[ti as int],
                tv == self@[ti as int],
                colsv == tv.columns,
                datav == tv.data,
                condv == condition.deep_view(),
                table_wf(tv),
                condv is Some ==> compile_spec(colsv, condv.unwrap()) is Some,
                pred_opt is Some ==> pred_wf(pred_opt.unwrap()@, colsv.len() as int),
                condv is None <==> pred_opt is None,
                pred_opt is Some ==> compile_spec(colsv, condv.unwrap()) == Some(
                    pred_opt.unwrap()@,
                ),
                filtered_pairs_from(colsv, datav, condv, 0) == pairs.deep_view()
                    + filtered_pairs_from(colsv, datav, condv, i as int),
                forall|k: int|
                    0 <= k < pairs.deep_view().len() ==> (#[trigger] pairs.deep_view()[k]).row.len()
                        == colsv.len(),
            decreases datav.len() - i,
        {
            let row = &t.data[i];
            proof {
                assert(row.deep_view() == datav[i as int]);
                assert(datav[i as int].len() == colsv.len());
            }
            let matched = match &pred_opt {
                Some(p) => p.eval(row),
                None => true,
            };
            proof {
                assert(matched == cond_matches(colsv, condv, datav[i as int]));
            }
            if matched {
                let ghost pdv0 = pairs.deep_view();
                pairs.push(SelPair { idx: i, row: clone_row(row) });
                proof {
                    let pv = (SelPairV { idx: i as int, row: datav[i as int] });
                    assert(pairs.deep_view() =~= pdv0.push(pv));
                    assert(pdv0 + (seq![pv] + filtered_pairs_from(colsv, datav, condv, i + 1))
                        =~= pairs.deep_view() + filtered_pairs_from(colsv, datav, condv, i + 1));
                }
            }
            i += 1;
        }
        proof {
            assert(filtered_pairs_from(colsv, datav, condv, i as int)
                =~= Seq::<SelPairV>::empty());
            assert(pairs.deep_view() + Seq::<SelPairV>::empty() =~= pairs.deep_view());
        }
        let ordered: Vec<SelPair> = match &keys_opt {
            Some(ks) => sort_rows(ks, pairs, Ghost(colsv.len() as int)),
            None => pairs,
        };
        let ghost keysg: Option<Seq<SortKeyV>> = match keys_opt {
            Some(ref ks) => Some(ks.deep_view()),
            None => None,
        };
        let mut out: Vec<Vec<String>> = Vec::new();
        let ghost target = project_pairs(ordered.deep_view(), iseq);
        let mut k: usize = 0;
        while k < ordered.len()
            invariant
                k <= ordered@.len(),
                target == project_pairs(ordered.deep_view(), iseq),
                idxs@.len() == iseq.len(),
                forall|m: int| 0 <= m < iseq.len() ==> idxs@[m] as int == #[trigger] iseq[m],
                forall|m: int| 0 <= m < iseq.len() ==> 0 <= #[trigger] iseq[m] < colsv.len(),
                forall|m: int|
                    0 <= m < ordered.deep_view().len() ==> (#[trigger] ordered.deep_view()[m]).row.len()
                        == colsv.len(),
                out.deep_view() =~= target.take(k as int),
            decreases ordered@.len() - k,
        {
            let p = &ordered[k];
            let ghost pv = ordered.deep_view()[k as int];
            proof {
                assert(p.deep_view() == pv);
            }
            let mut orow: Vec<String> = Vec::new();
            let mut m: usize = 0;
            while m < idxs.len()
                invariant
                    m <= iseq.len(),
                    idxs@.len() == iseq.len(),
                    forall|x: int| 0 <= x < iseq.len() ==> idxs@[x] as int == #[trigger] iseq[x],
                    forall|x: int| 0 <= x < iseq.len() ==> 0 <= #[trigger] iseq[x] < colsv.len(),
                    pv.row.len() == colsv.len(),
                    p.deep_view() == pv,
                    orow.deep_view().len() == m,
                    forall|x: int| 0 <= x < m ==> orow.deep_view()[x] == pv.row[iseq[x]],
                decreases iseq.len() - m,
            {
                let ghost odv0 = orow.deep_view();
                proof {
                    assert(p.row@.len() == pv.row.len());
                    assert(idxs@[m as int] as int == iseq[m as int]);
                    assert(p.row@[iseq[m as int]]@ == pv.row[iseq[m as int]]);
                }
                orow.push(p.row[idxs[m]].clone());
                proof {
                    assert(orow.deep_view() =~= odv0.push(pv.row[iseq[m as int]]));
                }
                m += 1;
            }
            let ghost orowdv = orow.deep_view();
            let ghost odv0 = out.deep_view();
            out.push(orow);
            proof {
                let trow = iseq.map_values(|c: int| pv.row[c]);
                assert(orowdv =~= trow);
                assert(target[k as int] == trow);
                assert(out.deep_view() =~= odv0.push(trow));
                assert(out.deep_view() =~= target.take(k + 1));
            }
            k += 1;
        }
        let has = out.len() > 0;
        Ok((out, has))
    }

    /// Updates every row the condition matches, applying the
    /// `(column, value)` assignments in order, and returns how many rows
    /// were updated. Values are normalized as on insert; unknown
    /// assignment columns are skipped; a constraint violation stops the
    /// call and keeps what was already applied (the documented
    /// non-atomic policy). Renaming a primary key to its own current
    /// value is allowed; colliding with a different row's key is
    /// rejected. An absent condition matches all rows; one that does
    /// not compile matches none.
    pub fn update(
        &mut self,
        table_name: &str,
        set: Vec<(String, String)>,
        condition: Option<&str>,
    ) -> (r: Result<usize, DbError>)
        requires
            db_wf(old(self)@),
        ensures
            db_wf(final(self)@),
            match find_table(old(self)@, table_name@) {
                None => final(self)@ == old(self)@ && (r matches Err(e) && e@
                    == DbErrorV::TableNotFound(table_name@)),
                Some(ti) => ({
                    let rec = update_rows_spec(
                        old(self)@[ti].columns,
                        old(self)@[ti].data,
                        set.deep_view(),
                        condition.deep_view(),
                        0,
                    );
                    final(self)@ =~= old(self)@.update(
                        ti,
                        (TableV {
                            name: old(self)@[ti].name,
                            columns: old(self)@[ti].columns,
                            data: rec.0,
                        }),
                    ) && (match (r, rec.1) {
                        (Ok(n), Ok(m)) => n as int == m,
                        (Err(e), Err(ev)) => e@ == ev,
                        _ => false,
                    })
                }),
            },
    {
        let ti = match self.find_table_idx(table_name) {
            None => {
                return Err(DbError::TableNotFound(table_name.to_owned()));
            },
            Some(ti) => ti,
        };
        let ghost dv0 = self@;
        let mut t = self.tables.remove(ti);
        proof {
            assert(t@ == dv0[ti as int]);
            assert(table_wf(t@));
        }
        let r = t.update_rows(&set, condition);
        self.tables.insert(ti, t);
        proof {
            assert(self@ =~= dv0.update(ti as int, t@));
            assert(db_wf(self@));
        }
        r
    }

    /// Removes every row of the named table that the condition matches,
    /// in one pass, and returns how many were removed. An absent
    /// condition removes all rows; a condition that does not compile
    /// matches none.
    pub fn delete(&mut self, table_name: &str, condition: Option<&str>) -> (r: Result<
        usize,
        DbError,
    >)
        requires
            db_wf(old(self)@),
        ensures
            db_wf(final(self)@),
            match find_table(old(self)@, table_name@) {
                None => final(self)@ == old(self)@ && (r matches Err(e) && e@
                    == DbErrorV::TableNotFound(table_name@)),
                Some(ti) => ({
                    let kept = delete_result(
                        old(self)@[ti].columns,
                        old(self)@[ti].data,
                        condition.deep_view(),
                    );
                    final(self)@ =~= old(self)@.update(
                        ti,
                        (TableV {
                            name: old(self)@[ti].name,
                            columns: old(self)@[ti].columns,
                            data: kept,
                        }),
                    ) && (r matches Ok(n) && n as int == old(self)@[ti].data.len() - kept.len())
                }),
            },
    {
        let ti = match self.find_table_idx(table_name) {
            None => {
                return Err(DbError::TableNotFound(table_name.to_owned()));
            },
            Some(ti) => ti,
        };
        let ghost dv0 = self@;
        let mut t = self.tables.remove(ti);
        proof {
            assert(t@ == dv0[ti as int]);
            assert(table_wf(t@));
        }
        let ghost cols = t@.columns;
        let ghost condv = condition.deep_view();
        let ghost data0 = t@.data;
        let (pred, none_flag) = t.compile_cond(condition);
        let old_rows = t.data.len();
        let mut rev: Vec<Vec<String>> = Vec::new();
        while t.data.len() > 0
            invariant
                data0.len() == t@.data.len() + rev@.len(),
                cols == t@.columns,
                ti < dv0.len(),
                t@.name == dv0[ti as int].name,
                cols == dv0[ti as int].columns,
                data0 == dv0[ti as int].data,
                forall|k: int| 0 <= k < t@.data.len() ==> t@.data[k] == data0[k],
                forall|k: int|
                    0 <= k < rev@.len() ==> rev.deep_view()[k] == data0[data0.len() - 1 - k],
            decreases t@.data.len(),
        {
            let ghost rdv0 = rev.deep_view();
            let ghost slen0 = t@.data.len();
            let row = t.data.pop().unwrap();
            proof {
                assert(row.deep_view() == data0[slen0 - 1]);
            }
            rev.push(row);
            proof {
                assert(rev.deep_view() =~= rdv0.push(data0[slen0 - 1]));
            }
        }
        let ghost keep_pred = |row: Seq<Seq<char>>| !cond_matches(cols, condv, row);
        let ghost mut p: int = 0;
        let ghost mut kept_idx: Seq<int> = Seq::empty();
        proof {
            assert(data0.take(0) =~= Seq::<Seq<Seq<char>>>::empty());
            reveal(Seq::filter);
            assert(data0.take(0).filter(keep_pred) =~= Seq::<Seq<Seq<char>>>::empty());
        }
        while rev.len() > 0
            invariant
                0 <= p,
                p + rev@.len() == data0.len(),
                cols == t@.columns,
                ti < dv0.len(),
                t@.name == dv0[ti as int].name,
                cols == dv0[ti as int].columns,
                data0 == dv0[ti as int].data,
                condv == condition.deep_view(),
                table_wf(dv0[ti as int]),
                none_flag ==> forall|row: Seq<Seq<char>>| !cond_matches(cols, condv, row),
                !none_flag && pred is Some ==> pred_wf(pred.unwrap()@, cols.len() as int)
                    && forall|row: Seq<Seq<char>>|
                    cond_matches(cols, condv, row) == eval_pred(pred.unwrap()@, row),
                !none_flag && pred is None ==> forall|row: Seq<Seq<char>>|
                    cond_matches(cols, condv, row),
                keep_pred == (|row: Seq<Seq<char>>| !cond_matches(cols, condv, row)),
                forall|k: int|
                    0 <= k < rev@.len() ==> rev.deep_view()[k] == data0[data0.len() - 1 - k],
                t@.data =~= data0.take(p).filter(keep_pred),
                kept_idx.len() == t@.data.len(),
                forall|k: int| 0 <= k < kept_idx.len() ==> 0 <= #[trigger] kept_idx[k] < p,
                forall|a: int, b: int| 0 <= a < b < kept_idx.len() ==> kept_idx[a] < kept_idx[b],
                forall|k: int|
                    0 <= k < kept_idx.len() ==> t@.data[k] == data0[#[trigger] kept_idx[k]],
            decreases rev@.len(),
        {
            let ghost rdv0 = rev.deep_view();
            let ghost rlen0 = rev@.len();
            let row = rev.pop().unwrap();
            proof {
                assert(rev.deep_view() =~= rdv0.drop_last());
                assert(row.deep_view() == rdv0[rlen0 - 1]);
                assert(row.deep_view() == data0[p]);
                assert(data0.take(p + 1).drop_last() =~= data0.take(p));
                assert(data0.take(p + 1).last() == data0[p]);
                reveal(Seq::filter);
                assert(rows_aligned(dv0[ti as int]));
                assert(row@.len() == cols.len());
            }
            let matched = if none_flag {
                false
            } else {
                match &pred {
                    Some(pr) => pr.eval(&row),
                    None => true,
                }
            };
            proof {
                assert(matched == cond_matches(cols, condv, row.deep_view()));
            }
            if !matched {
                let ghost ddv0 = t@.data;
                t.data.push(row);
                proof {
                    assert(t@.data =~= ddv0.push(data0[p]));
                    kept_idx = kept_idx.push(p);
                }
            }
            proof {
                p = p + 1;
                assert(t@.data =~= data0.take(p).filter(keep_pred));
            }
        }
        proof {
            assert(data0.take(data0.len() as int) =~= data0);
            assert(rows_aligned(dv0[ti as int]));
            assert forall|k: int| 0 <= k < t@.data.len() implies (#[trigger] t@.data[k]).len()
                == cols.len() by {
                assert(t@.data[k] == data0[kept_idx[k]]);
            }
            assert(rows_aligned(t@));
            if pk_index(cols) is Some {
                let k = pk_index(cols).unwrap();
                assert forall|a: int, b: int|
                    0 <= a < b < t@.data.len() && !is_null_cell(#[trigger] t@.data[a][k])
                        && !is_null_cell(#[trigger] t@.data[b][k]) implies t@.data[a][k]
                    != t@.data[b][k] by {
                    assert(t@.data[a] == data0[kept_idx[a]]);
                    assert(t@.data[b] == data0[kept_idx[b]]);
                    assert(kept_idx[a] < kept_idx[b] < data0.len());
                }
            }
            assert(table_wf(t@));
        }
        let removed = old_rows - t.data.len();
        self.tables.insert(ti, t);
        proof {
            assert(self@ =~= dv0.update(ti as int, t@));
            assert(db_wf(self@));
        }
        Ok(removed)
    }

    /// Removes each named table. With `if_exists` false, any name that
    /// does not resolve is a hard error and nothing is dropped; with
    /// `if_exists` true, missing names are skipped. Returns the number
    /// of tables removed.
    pub fn drop_tables(&mut self, table_names: &Vec<String>, if_exists: bool) -> (r: Result<
        usize,
        DbError,
    >)
        requires
            db_wf(old(self)@),
        ensures
            db_wf(final(self)@),
            if !if_exists && some_missing(old(self)@, table_names.deep_view()) {
                final(self)@ == old(self)@ && (r matches Err(e) && (e@ matches
                DbErrorV::TableNotFound(n) && name_in(table_names.deep_view(), n) && find_table(
                    old(self)@,
                    n,
                ) is None))
            } else {
                final(self)@ =~= drop_filter(old(self)@, table_names.deep_view()) && (
                r matches Ok(n) && n as int == old(self)@.len() - final(self)@.len())
            },
    {
        let ghost names = table_names.deep_view();
        if !if_exists {
            let mut j: usize = 0;
            while j < table_names.len()
                invariant
                    j <= names.len(),
                    names == table_names.deep_view(),
                    self@ == old(self)@,
                    db_wf(self@),
                    !if_exists,
                    forall|k: int| 0 <= k < j ==> find_table(self@, (#[trigger] names[k])) is Some,
                decreases names.len() - j,
            {
                if self.find_table_idx(table_names[j].as_str()).is_none() {
                    proof {
                        assert(table_names@[j as int]@ == names[j as int]);
                        assert(find_table(self@, names[j as int]) is None);
                        assert(some_missing(self@, names));
                        assert(name_in(names, names[j as int]));
                    }
                    return Err(DbError::TableNotFound(table_names[j].clone()));
                }
                j += 1;
            }
        }
        let old_len = self.tables.len();
        let ghost tables0 = self@;
        let mut rev: Vec<Table> = Vec::new();
        while self.tables.len() > 0
            invariant
                tables0.len() == self@.len() + rev@.len(),
                forall|k: int| 0 <= k < self@.len() ==> self@[k] == tables0[k],
                forall|k: int|
                    0 <= k < rev@.len() ==> rev.deep_view()[k] == tables0[tables0.len() - 1 - k],
            decreases self@.len(),
        {
            let ghost rdv0 = rev.deep_view();
            let ghost slen0 = self@.len();
            let t = self.tables.pop().unwrap();
            proof {
                assert(t@ == tables0[slen0 - 1]);
            }
            rev.push(t);
            proof {
                assert(rev.deep_view() =~= rdv0.push(t@));
            }
        }
        let ghost mut p: int = 0;
        proof {
            assert(tables0.take(0) =~= Seq::<TableV>::empty());
            reveal(Seq::filter);
            assert(drop_filter(tables0.take(0), names) =~= Seq::<TableV>::empty());
        }
        while rev.len() > 0
            invariant
                0 <= p,
                p + rev@.len() == tables0.len(),
                names == table_names.deep_view(),
                db_wf(tables0),
                db_wf(self@),
                self@.len() <= p,
                forall|k: int|
                    0 <= k < rev@.len() ==> rev.deep_view()[k] == tables0[tables0.len() - 1 - k],
                self@ =~= drop_filter(tables0.take(p), names),
            decreases rev@.len(),
        {
            let ghost rdv0 = rev.deep_view();
            let ghost rlen0 = rev@.len();
            let t = rev.pop().unwrap();
            proof {
                assert(rev.deep_view() =~= rdv0.drop_last());
                assert(t@ == rdv0[rlen0 - 1]);
                assert(t@ == tables0[p]);
                assert(tables0.take(p + 1).drop_last() =~= tables0.take(p));
                assert(tables0.take(p + 1).last() == tables0[p]);
                reveal(Seq::filter);
            }
            let mut hit = false;
            let mut q: usize = 0;
            while q < table_names.len()
                invariant
                    q <= names.len(),
                    names == table_names.deep_view(),
                    hit ==> name_in(names, t@.name),
                    !hit ==> forall|k: int| 0 <= k < q ==> (#[trigger] names[k]) != t@.name,
                decreases names.len() - q,
            {
                if !hit && str_eq(table_names[q].as_str(), t.name.as_str()) {
                    proof {
                        assert(names[q as int] == table_names@[q as int]@);
                        assert(name_in(names, t@.name));
                    }
                    hit = true;
                }
                q += 1;
            }
            if !hit {
                proof {
                    assert(!name_in(names, t@.name));
                }
                self.tables.push(t);
            }
            proof {
                p = p + 1;
                assert(self@ =~= drop_filter(tables0.take(p), names));
            }
        }
        proof {
            assert(tables0.take(tables0.len() as int) =~= tables0);
        }
        Ok(old_len - self.tables.len())
    }
}

} // verus!
