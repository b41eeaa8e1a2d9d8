//! The library's laws, stated and proved over the same spec functions
//! the executor's contracts use: the sort order is a genuine ordering
//! and sorting produces a sorted permutation; an unconditioned,
//! unordered select returns the stored rows as they are; the invariants
//! of committed tables; and what insert refuses.

use vstd::prelude::*;

use crate::constraints::{cell_error, dup_pk_error, first_cell_error};
use crate::error::DbErrorV;
use crate::model::{pk_index, pk_unique, table_wf, ColumnV, DataType, TableV};
use crate::query::{
    filtered_pairs_from, insert_all_spec, insert_row_spec, normalize_row, project_pairs,
    select_ok_rows,
};
use crate::sort::{
    insert_sorted, key_cmp, lex_cmp_chars, pair_lt, rows_cmp, sort_pairs, SelPairV, SortKeyV,
};
use crate::values::is_null_cell;

verus! {

proof fn lemma_lex_cmp_antisym(a: Seq<char>, b: Seq<char>)
    ensures
        lex_cmp_chars(a, b) == -lex_cmp_chars(b, a),
    decreases a.len(),
{
    if a.len() > 0 && b.len() > 0 && a[0] == b[0] {
        lemma_lex_cmp_antisym(a.drop_first(), b.drop_first());
    }
}

proof fn lemma_lex_cmp_trans(a: Seq<char>, b: Seq<char>, c: Seq<char>)
    requires
        lex_cmp_chars(a, b) <= 0,
        lex_cmp_chars(b, c) <= 0,
    ensures
        lex_cmp_chars(a, c) <= 0,
        lex_cmp_chars(a, b) < 0 || lex_cmp_chars(b, c) < 0 ==> lex_cmp_chars(a, c) < 0,
    decreases a.len(),
{
    if a.len() > 0 && b.len() > 0 && c.len() > 0 && a[0] == b[0] && b[0] == c[0] {
        lemma_lex_cmp_trans(a.drop_first(), b.drop_first(), c.drop_first());
    }
}

proof fn lemma_key_cmp_antisym(k: SortKeyV, x: Seq<Seq<char>>, y: Seq<Seq<char>>)
    ensures
        key_cmp(k, x, y) == -key_cmp(k, y, x),
{
    lemma_lex_cmp_antisym(x[k.col], y[k.col]);
}

proof fn lemma_key_cmp_trans(k: SortKeyV, x: Seq<Seq<char>>, y: Seq<Seq<char>>, z: Seq<Seq<char>>)
    requires
        key_cmp(k, x, y) <= 0,
        key_cmp(k, y, z) <= 0,
    ensures
        key_cmp(k, x, z) <= 0,
        key_cmp(k, x, y) < 0 || key_cmp(k, y, z) < 0 ==> key_cmp(k, x, z) < 0,
{
    match k.data_type {
        DataType::Int(_) => {},
        DataType::Varchar(_) => {
            lemma_lex_cmp_antisym(x[k.col], y[k.col]);
            lemma_lex_cmp_antisym(y[k.col], z[k.col]);
            lemma_lex_cmp_antisym(x[k.col], z[k.col]);
            if k.desc {
                lemma_lex_cmp_trans(z[k.col], y[k.col], x[k.col]);
            } else {
                lemma_lex_cmp_trans(x[k.col], y[k.col], z[k.col]);
            }
        },
    }
}

proof fn lemma_rows_cmp_antisym(keys: Seq<SortKeyV>, x: Seq<Seq<char>>, y: Seq<Seq<char>>)
    ensures
        rows_cmp(keys, x, y) == -rows_cmp(keys, y, x),
    decreases keys.len(),
{
    if keys.len() > 0 {
        lemma_key_cmp_antisym(keys[0], x, y);
        lemma_rows_cmp_antisym(keys.drop_first(), x, y);
    }
}

proof fn lemma_rows_cmp_trans(
    keys: Seq<SortKeyV>,
    x: Seq<Seq<char>>,
    y: Seq<Seq<char>>,
    z: Seq<Seq<char>>,
)
    requires
        rows_cmp(keys, x, y) <= 0,
        rows_cmp(keys, y, z) <= 0,
    ensures
        rows_cmp(keys, x, z) <= 0,
        rows_cmp(keys, x, y) < 0 || rows_cmp(keys, y, z) < 0 ==> rows_cmp(keys, x, z) < 0,
    decreases keys.len(),
{
    if keys.len() > 0 {
        let k = keys[0];
        lemma_key_cmp_antisym(k, x, y);
        lemma_key_cmp_antisym(k, y, z);
        lemma_key_cmp_antisym(k, x, z);
        if key_cmp(k, x, y) <= 0 && key_cmp(k, y, z) <= 0 {
            lemma_key_cmp_trans(k, x, y, z);
        }
        if key_cmp(k, x, y) == 0 && key_cmp(k, y, z) == 0 {
            lemma_rows_cmp_trans(keys.drop_first(), x, y, z);
        }
    }
}

/// The sort order is asymmetric: two tagged rows are never each below
/// the other.
pub proof fn lemma_pair_lt_asym(keys: Seq<SortKeyV>, a: SelPairV, b: SelPairV)
    ensures
        !(pair_lt(keys, a, b) && pair_lt(keys, b, a)),
{
    lemma_rows_cmp_antisym(keys, a.row, b.row);
}

/// `not below` is transitive: the sort order is a total preorder with
/// the index tiebreak making it antisymmetric.
pub proof fn lemma_pair_le_trans(keys: Seq<SortKeyV>, a: SelPairV, b: SelPairV, c: SelPairV)
    requires
        !pair_lt(keys, b, a),
        !pair_lt(keys, c, b),
    ensures
        !pair_lt(keys, c, a),
{
    lemma_rows_cmp_antisym(keys, a.row, b.row);
    lemma_rows_cmp_antisym(keys, b.row, c.row);
    lemma_rows_cmp_antisym(keys, a.row, c.row);
    if rows_cmp(keys, a.row, b.row) <= 0 && rows_cmp(keys, b.row, c.row) <= 0 {
        lemma_rows_cmp_trans(keys, a.row, b.row, c.row);
    }
}

/// Whether a pair sequence is sorted: no later element is below an
/// earlier one.
pub open spec fn pairs_sorted(keys: Seq<SortKeyV>, s: Seq<SelPairV>) -> bool {
    forall|a: int, b: int| 0 <= a < b < s.len() ==> !pair_lt(keys, #[trigger] s[b], #[trigger] s[a])
}

proof fn lemma_insert_sorted_elems(keys: Seq<SortKeyV>, p: SelPairV, s: Seq<SelPairV>)
    ensures
        insert_sorted(keys, p, s).len() == s.len() + 1,
        forall|k: int|
            0 <= k < insert_sorted(keys, p, s).len() ==> (#[trigger] insert_sorted(keys, p, s)[k])
                == p || (exists|j: int| 0 <= j < s.len() && insert_sorted(keys, p, s)[k] == s[j]),
    decreases s.len(),
{
    if s.len() > 0 && pair_lt(keys, s[0], p) {
        lemma_insert_sorted_elems(keys, p, s.drop_first());
        let r = insert_sorted(keys, p, s);
        let rr = insert_sorted(keys, p, s.drop_first());
        assert forall|k: int| 0 <= k < r.len() implies (#[trigger] r[k]) == p || (exists|j: int|
            0 <= j < s.len() && r[k] == s[j]) by {
            if k == 0 {
                assert(r[0] == s[0]);
            } else {
                assert(r[k] == rr[k - 1]);
                if rr[k - 1] != p {
                    let j = choose|j: int| 0 <= j < s.drop_first().len() && rr[k - 1]
                        == s.drop_first()[j];
                    assert(r[k] == s[j + 1]);
                }
            }
        }
    }
}

proof fn lemma_insert_sorted_sorted(keys: Seq<SortKeyV>, p: SelPairV, s: Seq<SelPairV>)
    requires
        pairs_sorted(keys, s),
    ensures
        pairs_sorted(keys, insert_sorted(keys, p, s)),
    decreases s.len(),
{
    let r = insert_sorted(keys, p, s);
    if s.len() == 0 {
    } else if pair_lt(keys, s[0], p) {
        assert(pairs_sorted(keys, s.drop_first()));
        lemma_insert_sorted_sorted(keys, p, s.drop_first());
        lemma_insert_sorted_elems(keys, p, s.drop_first());
        let rr = insert_sorted(keys, p, s.drop_first());
        assert forall|a: int, b: int| 0 <= a < b < r.len() implies !pair_lt(
            keys,
            #[trigger] r[b],
            #[trigger] r[a],
        ) by {
            if a == 0 {
                assert(r[b] == rr[b - 1]);
                if rr[b - 1] == p {
                    lemma_pair_lt_asym(keys, s[0], p);
                } else {
                    let j = choose|j: int| 0 <= j < s.drop_first().len() && rr[b - 1]
                        == s.drop_first()[j];
                    assert(rr[b - 1] == s[j + 1]);
                    assert(!pair_lt(keys, s[j + 1], s[0]));
                }
            } else {
                assert(r[a] == rr[a - 1] && r[b] == rr[b - 1]);
            }
        }
    } else {
        assert forall|a: int, b: int| 0 <= a < b < r.len() implies !pair_lt(
            keys,
            #[trigger] r[b],
            #[trigger] r[a],
        ) by {
            if a == 0 {
                assert(r[b] == s[b - 1]);
                if b == 1 {
                } else {
                    assert(!pair_lt(keys, s[b - 1], s[0]));
                    lemma_pair_le_trans(keys, p, s[0], s[b - 1]);
                }
            } else {
                assert(r[a] == s[a - 1] && r[b] == s[b - 1]);
            }
        }
    }
}

proof fn lemma_insert_sorted_multiset(keys: Seq<SortKeyV>, p: SelPairV, s: Seq<SelPairV>)
    ensures
        insert_sorted(keys, p, s).to_multiset() =~= s.to_multiset().insert(p),
    decreases s.len(),
{
    broadcast use vstd::seq_lib::group_to_multiset_ensures;

    let r = insert_sorted(keys, p, s);
    if s.len() == 0 {
        assert(r =~= Seq::<SelPairV>::empty().push(p));
        assert(Seq::<SelPairV>::empty().push(p).to_multiset() =~= Seq::<
            SelPairV,
        >::empty().to_multiset().insert(p));
    } else if pair_lt(keys, s[0], p) {
        lemma_insert_sorted_multiset(keys, p, s.drop_first());
        let rr = insert_sorted(keys, p, s.drop_first());
        assert(r =~= seq![s[0]] + rr);
        lemma_cons_to_multiset(s[0], rr);
        lemma_cons_to_multiset(s[0], s.drop_first());
        assert(s =~= seq![s[0]] + s.drop_first());
    } else {
        assert(r =~= seq![p] + s);
        lemma_cons_to_multiset(p, s);
    }
}

proof fn lemma_cons_to_multiset(x: SelPairV, s: Seq<SelPairV>)
    ensures
        (seq![x] + s).to_multiset() =~= s.to_multiset().insert(x),
    decreases s.len(),
{
    broadcast use vstd::seq_lib::group_to_multiset_ensures;

    if s.len() == 0 {
        assert(seq![x] + s =~= Seq::<SelPairV>::empty().push(x));
    } else {
        lemma_cons_to_multiset(x, s.drop_last());
        assert(seq![x] + s =~= (seq![x] + s.drop_last()).push(s.last()));
        assert(s =~= s.drop_last().push(s.last()));
        assert((seq![x] + s).to_multiset() =~= (seq![x] + s.drop_last()).to_multiset().insert(
            s.last(),
        ));
        assert(s.to_multiset() =~= s.drop_last().to_multiset().insert(s.last()));
    }
}

/// LAW — the multi-key sort returns a sorted sequence: for every pair
/// of positions `a < b`, the row at `b` is not below the row at `a`
/// under the key order (first key decides, a descending key reverses
/// its own comparison only, full ties keep the original order by
/// index). In particular, for keys `[(x, asc), (y, desc)]` the rows
/// come out ascending on `x` and, within equal `x`, descending on `y`.
pub proof fn lemma_sort_pairs_sorted(keys: Seq<SortKeyV>, s: Seq<SelPairV>)
    ensures
        pairs_sorted(keys, sort_pairs(keys, s)),
    decreases s.len(),
{
    if s.len() > 0 {
        lemma_sort_pairs_sorted(keys, s.drop_first());
        lemma_insert_sorted_sorted(keys, s[0], sort_pairs(keys, s.drop_first()));
    }
}

/// LAW — the sort returns a permutation: the multiset of tagged rows is
/// unchanged.
pub proof fn lemma_sort_pairs_permutation(keys: Seq<SortKeyV>, s: Seq<SelPairV>)
    ensures
        sort_pairs(keys, s).to_multiset() =~= s.to_multiset(),
    decreases s.len(),
{
    broadcast use vstd::seq_lib::group_to_multiset_ensures;

    if s.len() > 0 {
        lemma_sort_pairs_permutation(keys, s.drop_first());
        lemma_insert_sorted_multiset(keys, s[0], sort_pairs(keys, s.drop_first()));
        lemma_cons_to_multiset(s[0], s.drop_first());
        assert(s =~= seq![s[0]] + s.drop_first());
    }
}

/// LAW — sorted order, read per key: if rows `a < b` of a sort result
/// differ on the first key, that key ordered them; if they tie on the
/// first key, the second key (and so on) ordered them. Stated for the
/// first two keys, the shape a two-key `ORDER BY` uses.
pub proof fn lemma_multi_key_order(keys: Seq<SortKeyV>, s: Seq<SelPairV>, a: int, b: int)
    requires
        keys.len() >= 1,
        0 <= a < b < sort_pairs(keys, s).len(),
    ensures
        key_cmp(keys[0], sort_pairs(keys, s)[a].row, sort_pairs(keys, s)[b].row) <= 0,
        keys.len() >= 2 && key_cmp(keys[0], sort_pairs(keys, s)[a].row, sort_pairs(keys, s)[b].row)
            == 0 ==> key_cmp(
            keys[1],
            sort_pairs(keys, s)[a].row,
            sort_pairs(keys, s)[b].row,
        ) <= 0,
{
    lemma_sort_pairs_sorted(keys, s);
    let r = sort_pairs(keys, s);
    assert(!pair_lt(keys, r[b], r[a]));
    lemma_rows_cmp_antisym(keys, r[a].row, r[b].row);
    lemma_key_cmp_antisym(keys[0], r[a].row, r[b].row);
    if keys.len() >= 2 {
        lemma_key_cmp_antisym(keys[1], r[a].row, r[b].row);
        assert(keys.drop_first()[0] == keys[1]);
        lemma_rows_cmp_antisym(keys.drop_first(), r[a].row, r[b].row);
    }
}

/// LAW — every row committed to a well-formed table has exactly one
/// cell per column.
pub proof fn lemma_committed_rows_aligned(t: TableV, i: int)
    requires
        table_wf(t),
        0 <= i < t.data.len(),
    ensures
        t.data[i].len() == t.columns.len(),
{
}

/// LAW — in a well-formed table with a primary column, no two rows
/// carry the same non-NULL primary cell.
pub proof fn lemma_primary_unique(t: TableV, i: int, j: int, k: int)
    requires
        table_wf(t),
        pk_index(t.columns) == Some(k),
        0 <= i < j < t.data.len(),
        !is_null_cell(t.data[i][k]),
        !is_null_cell(t.data[j][k]),
    ensures
        t.data[i][k] != t.data[j][k],
{
    assert(pk_unique(t));
    let kk = pk_index(t.columns).unwrap();
    assert(kk == k);
    assert(!is_null_cell(t.data[i][kk]));
    assert(!is_null_cell(t.data[j][kk]));
    assert(t.data[i][kk] != t.data[j][kk]);
}

/// LAW — a `select` with no condition and no ordering returns the
/// stored rows in storage order, projected to the requested columns.
pub proof fn lemma_select_storage_order(t: TableV, idxs: Seq<int>)
    ensures
        select_ok_rows(t, idxs, None, None) == t.data.map_values(
            |row: Seq<Seq<char>>| idxs.map_values(|c: int| row[c]),
        ),
{
    lemma_filtered_all(t.columns, t.data, 0);
    let fp = filtered_pairs_from(t.columns, t.data, None, 0);
    assert(project_pairs(fp, idxs) =~= t.data.map_values(
        |row: Seq<Seq<char>>| idxs.map_values(|c: int| row[c]),
    ));
}

proof fn lemma_filtered_all(cols: Seq<ColumnV>, data: Seq<Seq<Seq<char>>>, i: int)
    requires
        0 <= i <= data.len(),
    ensures
        filtered_pairs_from(cols, data, None, i).len() == data.len() - i,
        forall|k: int|
            0 <= k < data.len() - i ==> (#[trigger] filtered_pairs_from(cols, data, None, i)[k])
                == (SelPairV { idx: i + k, row: data[i + k] }),
    decreases data.len() - i,
{
    if i < data.len() {
        lemma_filtered_all(cols, data, i + 1);
    }
}

proof fn lemma_first_cell_error_at(cols: Seq<ColumnV>, row: Seq<Seq<char>>, i: int)
    requires
        0 <= i,
        first_cell_error(cols, row, i) is None,
    ensures
        forall|x: int| i <= x < cols.len() ==> cell_error(#[trigger] cols[x], row[x]) is None,
    decreases cols.len() - i,
{
    if i < cols.len() {
        lemma_first_cell_error_at(cols, row, i + 1);
    }
}

/// LAW — inserting a row whose (normalized) primary cell is non-NULL
/// and already present in another row fails with `DuplicateKey` and
/// leaves the stored rows unchanged.
pub proof fn lemma_insert_duplicate_key(
    cols: Seq<ColumnV>,
    data: Seq<Seq<Seq<char>>>,
    vals: Seq<Seq<char>>,
    k: int,
    w: int,
)
    requires
        vals.len() == cols.len(),
        pk_index(cols) == Some(k),
        0 <= w < data.len(),
        data[w][k] == normalize_row(vals)[k],
        !is_null_cell(normalize_row(vals)[k]),
        first_cell_error(cols, normalize_row(vals), 0) is None,
    ensures
        insert_all_spec(cols, data, None, seq![vals]) == (
            data,
            Err::<int, DbErrorV>(DbErrorV::DuplicateKey(normalize_row(vals)[k])),
        ),
{
    let norm = normalize_row(vals);
    assert(seq![vals][0] == vals);
    assert(dup_pk_error(cols, data, norm) == Some(DbErrorV::DuplicateKey(norm[k])));
    assert(insert_row_spec(cols, data, None, vals) == Err::<Seq<Seq<char>>, _>(
        DbErrorV::DuplicateKey(norm[k]),
    ));
}

/// LAW — inserting a row that supplies NULL for a NOT NULL or primary
/// column, while every other cell passes its checks, fails with
/// `MissingValue` and leaves the stored rows unchanged.
pub proof fn lemma_insert_missing_value(
    cols: Seq<ColumnV>,
    data: Seq<Seq<Seq<char>>>,
    vals: Seq<Seq<char>>,
)
    requires
        vals.len() == cols.len(),
        exists|x: int|
            0 <= x < cols.len() && is_null_cell(normalize_row(vals)[x]) && ((#[trigger] cols[x]).not_null
                || cols[x].is_primary),
        forall|x: int|
            0 <= x < cols.len() ==> (cell_error(#[trigger] cols[x], normalize_row(vals)[x]) is None
                || (is_null_cell(normalize_row(vals)[x]) && (cols[x].not_null
                || cols[x].is_primary))),
    ensures
        insert_all_spec(cols, data, None, seq![vals]).0 == data,
        insert_all_spec(cols, data, None, seq![vals]).1 matches Err(e) && e is MissingValue,
{
    let norm = normalize_row(vals);
    assert(seq![vals][0] == vals);
    let x = choose|x: int|
        0 <= x < cols.len() && is_null_cell(norm[x]) && ((#[trigger] cols[x]).not_null
            || cols[x].is_primary);
    lemma_first_error_missing(cols, norm, 0, x);
    let e = first_cell_error(cols, norm, 0).unwrap();
    assert(insert_row_spec(cols, data, None, vals) == Err::<Seq<Seq<char>>, _>(e));
}

proof fn lemma_first_error_missing(cols: Seq<ColumnV>, row: Seq<Seq<char>>, i: int, x: int)
    requires
        0 <= i <= x < cols.len(),
        is_null_cell(row[x]),
        cols[x].not_null || cols[x].is_primary,
        forall|y: int|
            0 <= y < cols.len() ==> (cell_error(#[trigger] cols[y], row[y]) is None || (
            is_null_cell(row[y]) && (cols[y].not_null || cols[y].is_primary))),
    ensures
        first_cell_error(cols, row, i) matches Some(e) && e is MissingValue,
    decreases cols.len() - i,
{
    if cell_error(cols[i], row[i]) is Some {
        assert(is_null_cell(row[i]) && (cols[i].not_null || cols[i].is_primary));
    } else if i < x {
        lemma_first_error_missing(cols, row, i + 1, x);
    } else {
        assert(cell_error(cols[x], row[x]) == Some(DbErrorV::MissingValue(cols[x].name)));
    }
}

/// LAW — dropping a name that no table carries, with `if_exists` set,
/// leaves the table set unchanged (the no-op case; the hard-error case
/// without `if_exists` is part of `drop_tables`' contract).
pub proof fn lemma_drop_absent_is_noop(tables: Seq<TableV>, name: Seq<char>)
    requires
        forall|i: int| 0 <= i < tables.len() ==> (#[trigger] tables[i]).name != name,
    ensures
        crate::query::drop_filter(tables, seq![name]) == tables,
    decreases tables.len(),
{
    reveal(Seq::filter);
    if tables.len() > 0 {
        lemma_drop_absent_is_noop(tables.drop_last(), name);
        assert(seq![name][0] == name);
        assert(!crate::query::name_in(seq![name], tables.last().name));
        assert(crate::query::drop_filter(tables, seq![name]) =~= tables);
    } else {
        assert(crate::query::drop_filter(tables, seq![name]) =~= tables);
    }
}

} // verus!
