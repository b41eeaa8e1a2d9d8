//! The snapshot codec: the whole database serialized to and restored
//! from a field-tagged, human-readable document (an object with a
//! `tables` array; each table carries `name`, `columns` and `data`).
//! The encoder is canonical — one document per database — and `save`'s
//! contract pins the exact text. The decoder parses, validates the
//! table invariants, then re-encodes and compares: it accepts exactly
//! the canonical documents, so a successful `load` returns a database
//! whose encoding is the given text, character for character.

use vstd::prelude::*;
use vstd::string::*;

use crate::error::{DbError, DbErrorV};
use crate::model::{
    db_wf, pk_index, pk_unique, rows_aligned, table_wf, Column, ColumnV, Database, DataType,
    Table, TableV,
};
use crate::values::{is_null_cell, is_null_str, push_char, str_chars, str_eq};

verus! {

/// The character for one decimal digit.
pub open spec fn digit_char(d: int) -> char {
    ((d + 48) as u8) as char
}

/// The decimal spelling of a non-negative number, no leading zeros.
pub open spec fn dec_digits(n: int) -> Seq<char>
    decreases n,
{
    if n < 10 {
        seq![digit_char(n)]
    } else {
        dec_digits(n / 10).push(digit_char(n % 10))
    }
}

/// One character of a string literal, escaped when it is a quote or a
/// backslash.
pub open spec fn esc_char(c: char) -> Seq<char> {
    if c == '"' || c == '\\' {
        seq!['\\', c]
    } else {
        seq![c]
    }
}

/// A string's characters with quotes and backslashes escaped.
pub open spec fn esc_seq(s: Seq<char>) -> Seq<char>
    decreases s.len(),
{
    if s.len() == 0 {
        Seq::empty()
    } else {
        esc_char(s[0]) + esc_seq(s.drop_first())
    }
}

/// A quoted, escaped string literal.
pub open spec fn enc_str(s: Seq<char>) -> Seq<char> {
    seq!['"'] + esc_seq(s) + seq!['"']
}

pub open spec fn enc_bool(b: bool) -> Seq<char> {
    if b {
        seq!['t', 'r', 'u', 'e']
    } else {
        seq!['f', 'a', 'l', 's', 'e']
    }
}

/// A column type as a tagged object.
pub open spec fn enc_dt(dt: DataType) -> Seq<char> {
    match dt {
        DataType::Int(w) => seq!['{', '"', 'I', 'n', 't', '"', ':'] + dec_digits(w as int)
            + seq!['}'],
        DataType::Varchar(m) => seq!['{', '"', 'V', 'a', 'r', 'c', 'h', 'a', 'r', '"', ':']
            + dec_digits(m as int) + seq!['}'],
    }
}

/// A column as a field-tagged object.
pub open spec fn enc_col(c: ColumnV) -> Seq<char> {
    seq!['{', '"', 'n', 'a', 'm', 'e', '"', ':'] + enc_str(c.name) + seq![
        ',',
        '"',
        'd',
        'a',
        't',
        'a',
        '_',
        't',
        'y',
        'p',
        'e',
        '"',
        ':',
    ] + enc_dt(c.data_type) + seq![',', '"', 'i', 's', '_', 'p', 'r', 'i', 'm', 'a', 'r', 'y', '"', ':']
        + enc_bool(c.is_primary) + seq![',', '"', 'n', 'o', 't', '_', 'n', 'u', 'l', 'l', '"', ':']
        + enc_bool(c.not_null) + seq!['}']
}

pub open spec fn enc_cols_items(cols: Seq<ColumnV>, i: int) -> Seq<char>
    decreases cols.len() - i,
{
    if i < 0 || i >= cols.len() {
        Seq::empty()
    } else {
        enc_col(cols[i]) + (if i + 1 < cols.len() {
            seq![',']
        } else {
            Seq::empty()
        }) + enc_cols_items(cols, i + 1)
    }
}

pub open spec fn enc_cols(cols: Seq<ColumnV>) -> Seq<char> {
    seq!['['] + enc_cols_items(cols, 0) + seq![']']
}

pub open spec fn enc_row_items(row: Seq<Seq<char>>, i: int) -> Seq<char>
    decreases row.len() - i,
{
    if i < 0 || i >= row.len() {
        Seq::empty()
    } else {
        enc_str(row[i]) + (if i + 1 < row.len() {
            seq![',']
        } else {
            Seq::empty()
        }) + enc_row_items(row, i + 1)
    }
}

pub open spec fn enc_row(row: Seq<Seq<char>>) -> Seq<char> {
    seq!['['] + enc_row_items(row, 0) + seq![']']
}

pub open spec fn enc_data_items(data: Seq<Seq<Seq<char>>>, i: int) -> Seq<char>
    decreases data.len() - i,
{
    if i < 0 || i >= data.len() {
        Seq::empty()
    } else {
        enc_row(data[i]) + (if i + 1 < data.len() {
            seq![',']
        } else {
            Seq::empty()
        }) + enc_data_items(data, i + 1)
    }
}

pub open spec fn enc_data(data: Seq<Seq<Seq<char>>>) -> Seq<char> {
    seq!['['] + enc_data_items(data, 0) + seq![']']
}

/// A table as a field-tagged object.
pub open spec fn enc_table(t: TableV) -> Seq<char> {
    seq!['{', '"', 'n', 'a', 'm', 'e', '"', ':'] + enc_str(t.name) + seq![
        ',',
        '"',
        'c',
        'o',
        'l',
        'u',
        'm',
        'n',
        's',
        '"',
        ':',
    ] + enc_cols(t.columns) + seq![',', '"', 'd', 'a', 't', 'a', '"', ':'] + enc_data(t.data)
        + seq!['}']
}

pub open spec fn enc_tables_items(ts: Seq<TableV>, i: int) -> Seq<char>
    decreases ts.len() - i,
{
    if i < 0 || i >= ts.len() {
        Seq::empty()
    } else {
        enc_table(ts[i]) + (if i + 1 < ts.len() {
            seq![',']
        } else {
            Seq::empty()
        }) + enc_tables_items(ts, i + 1)
    }
}

/// The whole database as one document.
pub open spec fn enc_db(ts: Seq<TableV>) -> Seq<char> {
    seq!['{', '"', 't', 'a', 'b', 'l', 'e', 's', '"', ':', '['] + enc_tables_items(ts, 0) + seq![
        ']',
        '}',
    ]
}

proof fn lemma_esc_seq_push(s: Seq<char>, c: char)
    ensures
        esc_seq(s.push(c)) == esc_seq(s) + esc_char(c),
    decreases s.len(),
{
    if s.len() == 0 {
        assert(s.push(c).drop_first() =~= Seq::<char>::empty());
        assert(s.push(c)[0] == c);
        assert(esc_seq(Seq::<char>::empty()) =~= Seq::<char>::empty());
        assert(esc_seq(s.push(c)) =~= esc_char(c) + esc_seq(Seq::<char>::empty()));
        assert(esc_seq(s.push(c)) =~= esc_char(c));
        assert(esc_seq(s) + esc_char(c) =~= esc_char(c));
    } else {
        assert(s.push(c).drop_first() =~= s.drop_first().push(c));
        lemma_esc_seq_push(s.drop_first(), c);
        assert(esc_seq(s.push(c)) =~= esc_seq(s) + esc_char(c));
    }
}

/// Appends the given characters verbatim.
fn push_lit(out: &mut String, lit: &[char])
    ensures
        final(out)@ == old(out)@ + lit@,
{
    let mut i: usize = 0;
    while i < lit.len()
        invariant
            i <= lit@.len(),
            out@ == old(out)@ + lit@.take(i as int),
        decreases lit@.len() - i,
    {
        push_char(out, lit[i]);
        proof {
            assert(old(out)@ + lit@.take(i as int + 1) =~= (old(out)@ + lit@.take(i as int)).push(
                lit@[i as int],
            ));
        }
        i += 1;
    }
    proof {
        assert(lit@.take(lit@.len() as int) =~= lit@);
    }
}

/// Appends a quoted, escaped string literal.
fn push_estr(out: &mut String, s: &str)
    ensures
        final(out)@ == old(out)@ + enc_str(s@),
{
    let v = str_chars(s);
    push_char(out, '"');
    let mut i: usize = 0;
    while i < v.len()
        invariant
            i <= v@.len(),
            v@ == s@,
            out@ == old(out)@ + seq!['"'] + esc_seq(s@.take(i as int)),
        decreases v@.len() - i,
    {
        let c = v[i];
        if c == '"' || c == '\\' {
            push_char(out, '\\');
            push_char(out, c);
        } else {
            push_char(out, c);
        }
        proof {
            assert(s@.take(i as int).push(s@[i as int]) =~= s@.take(i as int + 1));
            lemma_esc_seq_push(s@.take(i as int), s@[i as int]);
            assert(out@ =~= old(out)@ + seq!['"'] + esc_seq(s@.take(i as int + 1)));
        }
        i += 1;
    }
    push_char(out, '"');
    proof {
        assert(s@.take(s@.len() as int) =~= s@);
        assert(out@ =~= old(out)@ + enc_str(s@));
    }
}

/// Appends the decimal spelling of a number.
fn push_u32(out: &mut String, n: u32)
    ensures
        final(out)@ == old(out)@ + dec_digits(n as int),
    decreases n,
{
    if n < 10 {
        push_char(out, ((n as u8) + 48) as char);
        proof {
            assert(old(out)@ + dec_digits(n as int) =~= old(out)@.push(digit_char(n as int)));
        }
    } else {
        push_u32(out, n / 10);
        push_char(out, (((n % 10) as u8) + 48) as char);
        proof {
            assert(old(out)@ + dec_digits(n as int) =~= (old(out)@ + dec_digits(
                n as int / 10,
            )).push(digit_char(n as int % 10)));
        }
    }
}

fn push_bool(out: &mut String, b: bool)
    ensures
        final(out)@ == old(out)@ + enc_bool(b),
{
    if b {
        let lit = ['t', 'r', 'u', 'e'];
        push_lit(out, lit.as_slice());
        proof {
            assert(lit@ =~= enc_bool(true));
        }
    } else {
        let lit = ['f', 'a', 'l', 's', 'e'];
        push_lit(out, lit.as_slice());
        proof {
            assert(lit@ =~= enc_bool(false));
        }
    }
}

fn push_dt(out: &mut String, dt: &DataType)
    ensures
        final(out)@ == old(out)@ + enc_dt(*dt),
{
    match dt {
        DataType::Int(w) => {
            let lit = ['{', '"', 'I', 'n', 't', '"', ':'];
            push_lit(out, lit.as_slice());
            push_u32(out, *w);
            let close = ['}'];
            push_lit(out, close.as_slice());
            proof {
                assert(lit@ =~= seq!['{', '"', 'I', 'n', 't', '"', ':']);
                assert(close@ =~= seq!['}']);
                assert(final(out)@ =~= old(out)@ + enc_dt(*dt));
            }
        },
        DataType::Varchar(m) => {
            let lit = ['{', '"', 'V', 'a', 'r', 'c', 'h', 'a', 'r', '"', ':'];
            push_lit(out, lit.as_slice());
            push_u32(out, *m);
            let close = ['}'];
            push_lit(out, close.as_slice());
            proof {
                assert(lit@ =~= seq!['{', '"', 'V', 'a', 'r', 'c', 'h', 'a', 'r', '"', ':']);
                assert(close@ =~= seq!['}']);
                assert(final(out)@ =~= old(out)@ + enc_dt(*dt));
            }
        },
    }
}

fn push_col(out: &mut String, c: &Column)
    ensures
        final(out)@ == old(out)@ + enc_col(c@),
{
    let l1 = ['{', '"', 'n', 'a', 'm', 'e', '"', ':'];
    push_lit(out, l1.as_slice());
    push_estr(out, c.name.as_str());
    let l2 = [',', '"', 'd', 'a', 't', 'a', '_', 't', 'y', 'p', 'e', '"', ':'];
    push_lit(out, l2.as_slice());
    push_dt(out, &c.data_type);
    let l3 = [',', '"', 'i', 's', '_', 'p', 'r', 'i', 'm', 'a', 'r', 'y', '"', ':'];
    push_lit(out, l3.as_slice());
    push_bool(out, c.is_primary);
    let l4 = [',', '"', 'n', 'o', 't', '_', 'n', 'u', 'l', 'l', '"', ':'];
    push_lit(out, l4.as_slice());
    push_bool(out, c.not_null);
    let l5 = ['}'];
    push_lit(out, l5.as_slice());
    proof {
        assert(l1@ =~= seq!['{', '"', 'n', 'a', 'm', 'e', '"', ':']);
        assert(l2@ =~= seq![',', '"', 'd', 'a', 't', 'a', '_', 't', 'y', 'p', 'e', '"', ':']);
        assert(l3@ =~= seq![',', '"', 'i', 's', '_', 'p', 'r', 'i', 'm', 'a', 'r', 'y', '"', ':']);
        assert(l4@ =~= seq![',', '"', 'n', 'o', 't', '_', 'n', 'u', 'l', 'l', '"', ':']);
        assert(l5@ =~= seq!['}']);
        assert(final(out)@ =~= old(out)@ + enc_col(c@));
    }
}

fn push_cols_items(out: &mut String, cols: &Vec<Column>, i: usize)
    requires
        i <= cols@.len(),
    ensures
        final(out)@ == old(out)@ + enc_cols_items(cols.deep_view(), i as int),
    decreases cols@.len() - i,
{
    if i < cols.len() {
        push_col(out, &cols[i]);
        if i + 1 < cols.len() {
            push_char(out, ',');
        }
        push_cols_items(out, cols, i + 1);
        proof {
            assert(cols@[i as int]@ == cols.deep_view()[i as int]);
            assert(final(out)@ =~= old(out)@ + enc_cols_items(cols.deep_view(), i as int));
        }
    } else {
        proof {
            assert(old(out)@ + enc_cols_items(cols.deep_view(), i as int) =~= old(out)@);
        }
    }
}

fn push_row_items(out: &mut String, row: &Vec<String>, i: usize)
    requires
        i <= row@.len(),
    ensures
        final(out)@ == old(out)@ + enc_row_items(row.deep_view(), i as int),
    decreases row@.len() - i,
{
    if i < row.len() {
        push_estr(out, row[i].as_str());
        if i + 1 < row.len() {
            push_char(out, ',');
        }
        push_row_items(out, row, i + 1);
        proof {
            assert(row@[i as int]@ == row.deep_view()[i as int]);
            assert(final(out)@ =~= old(out)@ + enc_row_items(row.deep_view(), i as int));
        }
    } else {
        proof {
            assert(old(out)@ + enc_row_items(row.deep_view(), i as int) =~= old(out)@);
        }
    }
}

fn push_data_items(out: &mut String, data: &Vec<Vec<String>>, i: usize)
    requires
        i <= data@.len(),
    ensures
        final(out)@ == old(out)@ + enc_data_items(data.deep_view(), i as int),
    decreases data@.len() - i,
{
    if i < data.len() {
        push_char(out, '[');
        push_row_items(out, &data[i], 0);
        push_char(out, ']');
        if i + 1 < data.len() {
            push_char(out, ',');
        }
        push_data_items(out, data, i + 1);
        proof {
            assert(data@[i as int].deep_view() == data.deep_view()[i as int]);
            assert(final(out)@ =~= old(out)@ + enc_data_items(data.deep_view(), i as int));
        }
    } else {
        proof {
            assert(old(out)@ + enc_data_items(data.deep_view(), i as int) =~= old(out)@);
        }
    }
}

fn push_table(out: &mut String, t: &Table)
    ensures
        final(out)@ == old(out)@ + enc_table(t@),
{
    let l1 = ['{', '"', 'n', 'a', 'm', 'e', '"', ':'];
    push_lit(out, l1.as_slice());
    push_estr(out, t.name.as_str());
    let l2 = [',', '"', 'c', 'o', 'l', 'u', 'm', 'n', 's', '"', ':'];
    push_lit(out, l2.as_slice());
    push_char(out, '[');
    push_cols_items(out, &t.columns, 0);
    push_char(out, ']');
    let l3 = [',', '"', 'd', 'a', 't', 'a', '"', ':'];
    push_lit(out, l3.as_slice());
    push_char(out, '[');
    push_data_items(out, &t.data, 0);
    push_char(out, ']');
    push_char(out, '}');
    proof {
        assert(l1@ =~= seq!['{', '"', 'n', 'a', 'm', 'e', '"', ':']);
        assert(l2@ =~= seq![',', '"', 'c', 'o', 'l', 'u', 'm', 'n', 's', '"', ':']);
        assert(l3@ =~= seq![',', '"', 'd', 'a', 't', 'a', '"', ':']);
        assert(final(out)@ =~= old(out)@ + enc_table(t@));
    }
}

fn push_tables_items(out: &mut String, tables: &Vec<Table>, i: usize)
    requires
        i <= tables@.len(),
    ensures
        final(out)@ == old(out)@ + enc_tables_items(tables.deep_view(), i as int),
    decreases tables@.len() - i,
{
    if i < tables.len() {
        push_table(out, &tables[i]);
        if i + 1 < tables.len() {
            push_char(out, ',');
        }
        push_tables_items(out, tables, i + 1);
        proof {
            assert(tables@[i as int]@ == tables.deep_view()[i as int]);
            assert(final(out)@ =~= old(out)@ + enc_tables_items(tables.deep_view(), i as int));
        }
    } else {
        proof {
            assert(old(out)@ + enc_tables_items(tables.deep_view(), i as int) =~= old(out)@);
        }
    }
}

proof fn lemma_strip_prefix(x: Seq<char>, u: Seq<char>, v: Seq<char>)
    requires
        x + u == x + v,
    ensures
        u == v,
{
    assert((x + u).len() == (x + v).len());
    assert((x + u).len() == x.len() + u.len());
    assert((x + v).len() == x.len() + v.len());
    assert(u.len() == v.len());
    assert forall|k: int| 0 <= k < u.len() implies u[k] == v[k] by {
        assert((x + u)[x.len() + k] == u[k]);
        assert((x + v)[x.len() + k] == v[k]);
    }
    assert(u =~= v);
}

proof fn lemma_shift(a: Seq<char>, b: Seq<char>, c: Seq<char>)
    ensures
        (a + b) + c == a + (b + c),
{
    vstd::seq_lib::lemma_concat_associative(a, b, c);
}

proof fn lemma_dec_digits_props(n: int)
    requires
        n >= 0,
    ensures
        dec_digits(n).len() >= 1,
        forall|k: int| 0 <= k < dec_digits(n).len() ==> crate::values::is_digit(#[trigger] dec_digits(n)[k]),
        crate::values::digits_value(dec_digits(n)) == n,
    decreases n,
{
    if n < 10 {
        assert(dec_digits(n) =~= seq![digit_char(n)]);
        assert(dec_digits(n).drop_last() =~= Seq::<char>::empty());
        assert(crate::values::digits_value(Seq::<char>::empty()) == 0);
        assert(dec_digits(n)[0] == digit_char(n));
        assert(crate::values::digits_value(dec_digits(n)) == digit_char(n) as int - '0' as int);
        assert(digit_char(n) as int == n + 48);
    } else {
        lemma_dec_digits_props(n / 10);
        let d = dec_digits(n / 10);
        assert(dec_digits(n) == d.push(digit_char(n % 10)));
        assert(d.push(digit_char(n % 10)).drop_last() =~= d);
        assert(digit_char(n % 10) as int == n % 10 + 48);
        assert(crate::values::digits_value(dec_digits(n)) == crate::values::digits_value(d) * 10 + (
        digit_char(n % 10) as int - '0' as int));
    }
}

proof fn lemma_num_unique(m: int, n: int, r1: Seq<char>, r2: Seq<char>)
    requires
        m >= 0,
        n >= 0,
        dec_digits(m) + r1 == dec_digits(n) + r2,
        r1.len() > 0 ==> !crate::values::is_digit(r1[0]),
        r2.len() > 0 ==> !crate::values::is_digit(r2[0]),
    ensures
        m == n,
        r1 == r2,
{
    lemma_dec_digits_props(m);
    lemma_dec_digits_props(n);
    let d1 = dec_digits(m);
    let d2 = dec_digits(n);
    if d1.len() < d2.len() {
        assert(r1.len() > 0);
        assert((d1 + r1)[d1.len() as int] == r1[0]);
        assert((d2 + r2)[d1.len() as int] == d2[d1.len() as int]);
        assert(false);
    }
    if d2.len() < d1.len() {
        assert(r2.len() > 0);
        assert((d2 + r2)[d2.len() as int] == r2[0]);
        assert((d1 + r1)[d2.len() as int] == d1[d2.len() as int]);
        assert(false);
    }
    assert forall|k: int| 0 <= k < d1.len() implies d1[k] == d2[k] by {
        assert((d1 + r1)[k] == d1[k]);
        assert((d2 + r2)[k] == d2[k]);
    }
    assert(d1 =~= d2);
    assert((d1 + r1).len() == (d2 + r2).len());
    assert((d1 + r1).len() == d1.len() + r1.len());
    assert((d2 + r2).len() == d2.len() + r2.len());
    assert(r1.len() == r2.len());
    assert forall|k: int| 0 <= k < r1.len() implies r1[k] == r2[k] by {
        assert((d1 + r1)[d1.len() + k] == r1[k]);
        assert((d2 + r2)[d2.len() + k] == r2[k]);
    }
    assert(r1 =~= r2);
}

proof fn lemma_esc_unique(a: Seq<char>, b: Seq<char>, r1: Seq<char>, r2: Seq<char>)
    requires
        esc_seq(a) + (seq!['"'] + r1) == esc_seq(b) + (seq!['"'] + r2),
    ensures
        a == b,
        r1 == r2,
    decreases a.len(),
{
    let lhs = esc_seq(a) + (seq!['"'] + r1);
    let rhs = esc_seq(b) + (seq!['"'] + r2);
    if a.len() == 0 && b.len() == 0 {
        assert(esc_seq(a) =~= Seq::<char>::empty());
        assert(esc_seq(b) =~= Seq::<char>::empty());
        assert(lhs =~= seq!['"'] + r1);
        assert(rhs =~= seq!['"'] + r2);
        lemma_strip_prefix(seq!['"'], r1, r2);
        assert(a =~= b);
    } else if a.len() == 0 {
        assert(lhs =~= seq!['"'] + r1);
        assert(lhs[0] == '"');
        assert(rhs[0] == esc_char(b[0])[0]);
        assert(esc_char(b[0])[0] != '"');
        assert(false);
    } else if b.len() == 0 {
        assert(rhs =~= seq!['"'] + r2);
        assert(rhs[0] == '"');
        assert(lhs[0] == esc_char(a[0])[0]);
        assert(esc_char(a[0])[0] != '"');
        assert(false);
    } else {
        let a0 = a[0];
        let b0 = b[0];
        let a_esc = a0 == '"' || a0 == '\\';
        let b_esc = b0 == '"' || b0 == '\\';
        assert(lhs =~= esc_char(a0) + (esc_seq(a.drop_first()) + (seq!['"'] + r1)));
        assert(rhs =~= esc_char(b0) + (esc_seq(b.drop_first()) + (seq!['"'] + r2)));
        if a_esc && !b_esc {
            assert(lhs[0] == '\\');
            assert(rhs[0] == b0);
            assert(false);
        } else if !a_esc && b_esc {
            assert(rhs[0] == '\\');
            assert(lhs[0] == a0);
            assert(false);
        } else if a_esc && b_esc {
            assert(lhs[1] == a0);
            assert(rhs[1] == b0);
            assert(a0 == b0);
            lemma_strip_prefix(
                esc_char(a0),
                esc_seq(a.drop_first()) + (seq!['"'] + r1),
                esc_seq(b.drop_first()) + (seq!['"'] + r2),
            );
            lemma_esc_unique(a.drop_first(), b.drop_first(), r1, r2);
            assert(a =~= seq![a0] + a.drop_first());
            assert(b =~= seq![b0] + b.drop_first());
        } else {
            assert(lhs[0] == a0);
            assert(rhs[0] == b0);
            assert(a0 == b0);
            lemma_strip_prefix(
                esc_char(a0),
                esc_seq(a.drop_first()) + (seq!['"'] + r1),
                esc_seq(b.drop_first()) + (seq!['"'] + r2),
            );
            lemma_esc_unique(a.drop_first(), b.drop_first(), r1, r2);
            assert(a =~= seq![a0] + a.drop_first());
            assert(b =~= seq![b0] + b.drop_first());
        }
    }
}

proof fn lemma_str_unique(a: Seq<char>, b: Seq<char>, r1: Seq<char>, r2: Seq<char>)
    requires
        enc_str(a) + r1 == enc_str(b) + r2,
    ensures
        a == b,
        r1 == r2,
{
    assert(enc_str(a) + r1 =~= seq!['"'] + (esc_seq(a) + (seq!['"'] + r1)));
    assert(enc_str(b) + r2 =~= seq!['"'] + (esc_seq(b) + (seq!['"'] + r2)));
    lemma_strip_prefix(
        seq!['"'],
        esc_seq(a) + (seq!['"'] + r1),
        esc_seq(b) + (seq!['"'] + r2),
    );
    lemma_esc_unique(a, b, r1, r2);
}

proof fn lemma_bool_unique(a: bool, b: bool, r1: Seq<char>, r2: Seq<char>)
    requires
        enc_bool(a) + r1 == enc_bool(b) + r2,
    ensures
        a == b,
        r1 == r2,
{
    if a != b {
        assert((enc_bool(a) + r1)[0] == enc_bool(a)[0]);
        assert((enc_bool(b) + r2)[0] == enc_bool(b)[0]);
        assert(false);
    }
    lemma_strip_prefix(enc_bool(a), r1, r2);
}

proof fn lemma_dt_unique(a: DataType, b: DataType, r1: Seq<char>, r2: Seq<char>)
    requires
        enc_dt(a) + r1 == enc_dt(b) + r2,
    ensures
        a == b,
        r1 == r2,
{
    let lhs = enc_dt(a) + r1;
    let rhs = enc_dt(b) + r2;
    match (a, b) {
        (DataType::Int(w1), DataType::Int(w2)) => {
            let l = seq!['{', '"', 'I', 'n', 't', '"', ':'];
            assert(lhs =~= l + (dec_digits(w1 as int) + (seq!['}'] + r1)));
            assert(rhs =~= l + (dec_digits(w2 as int) + (seq!['}'] + r2)));
            lemma_strip_prefix(
                l,
                dec_digits(w1 as int) + (seq!['}'] + r1),
                dec_digits(w2 as int) + (seq!['}'] + r2),
            );
            lemma_num_unique(w1 as int, w2 as int, seq!['}'] + r1, seq!['}'] + r2);
            lemma_strip_prefix(seq!['}'], r1, r2);
        },
        (DataType::Varchar(m1), DataType::Varchar(m2)) => {
            let l = seq!['{', '"', 'V', 'a', 'r', 'c', 'h', 'a', 'r', '"', ':'];
            assert(lhs =~= l + (dec_digits(m1 as int) + (seq!['}'] + r1)));
            assert(rhs =~= l + (dec_digits(m2 as int) + (seq!['}'] + r2)));
            lemma_strip_prefix(
                l,
                dec_digits(m1 as int) + (seq!['}'] + r1),
                dec_digits(m2 as int) + (seq!['}'] + r2),
            );
            lemma_num_unique(m1 as int, m2 as int, seq!['}'] + r1, seq!['}'] + r2);
            lemma_strip_prefix(seq!['}'], r1, r2);
        },
        (DataType::Int(w1), DataType::Varchar(m2)) => {
            assert(lhs[2] == 'I');
            assert(rhs[2] == 'V');
            assert(false);
        },
        (DataType::Varchar(m1), DataType::Int(w2)) => {
            assert(lhs[2] == 'V');
            assert(rhs[2] == 'I');
            assert(false);
        },
    }
}

#[verifier::spinoff_prover]
proof fn lemma_col_unique(a: ColumnV, b: ColumnV, r1: Seq<char>, r2: Seq<char>)
    requires
        enc_col(a) + r1 == enc_col(b) + r2,
    ensures
        a == b,
        r1 == r2,
{
    let l1 = seq!['{', '"', 'n', 'a', 'm', 'e', '"', ':'];
    let l2 = seq![',', '"', 'd', 'a', 't', 'a', '_', 't', 'y', 'p', 'e', '"', ':'];
    let l3 = seq![',', '"', 'i', 's', '_', 'p', 'r', 'i', 'm', 'a', 'r', 'y', '"', ':'];
    let l4 = seq![',', '"', 'n', 'o', 't', '_', 'n', 'u', 'l', 'l', '"', ':'];
    let rb = seq!['}'];
    lemma_col_shape(a, r1);
    lemma_col_shape(b, r2);
    let ta = l2 + (enc_dt(a.data_type) + (l3 + (enc_bool(a.is_primary) + (l4 + (enc_bool(
        a.not_null,
    ) + (rb + r1))))));
    let tb = l2 + (enc_dt(b.data_type) + (l3 + (enc_bool(b.is_primary) + (l4 + (enc_bool(
        b.not_null,
    ) + (rb + r2))))));
    lemma_strip_prefix(l1, enc_str(a.name) + ta, enc_str(b.name) + tb);
    lemma_str_unique(a.name, b.name, ta, tb);
    lemma_strip_prefix(
        l2,
        enc_dt(a.data_type) + (l3 + (enc_bool(a.is_primary) + (l4 + (enc_bool(a.not_null) + (rb
            + r1))))),
        enc_dt(b.data_type) + (l3 + (enc_bool(b.is_primary) + (l4 + (enc_bool(b.not_null) + (rb
            + r2))))),
    );
    lemma_dt_unique(
        a.data_type,
        b.data_type,
        l3 + (enc_bool(a.is_primary) + (l4 + (enc_bool(a.not_null) + (rb + r1)))),
        l3 + (enc_bool(b.is_primary) + (l4 + (enc_bool(b.not_null) + (rb + r2)))),
    );
    lemma_strip_prefix(
        l3,
        enc_bool(a.is_primary) + (l4 + (enc_bool(a.not_null) + (rb + r1))),
        enc_bool(b.is_primary) + (l4 + (enc_bool(b.not_null) + (rb + r2))),
    );
    lemma_bool_unique(
        a.is_primary,
        b.is_primary,
        l4 + (enc_bool(a.not_null) + (rb + r1)),
        l4 + (enc_bool(b.not_null) + (rb + r2)),
    );
    lemma_strip_prefix(
        l4,
        enc_bool(a.not_null) + (rb + r1),
        enc_bool(b.not_null) + (rb + r2),
    );
    lemma_bool_unique(a.not_null, b.not_null, rb + r1, rb + r2);
    lemma_strip_prefix(rb, r1, r2);
    assert(a =~= b);
}

/// Reassociates a column encoding followed by a remainder into its
/// right-nested reading.
#[verifier::spinoff_prover]
proof fn lemma_col_shape(a: ColumnV, r: Seq<char>)
    ensures
        enc_col(a) + r == seq!['{', '"', 'n', 'a', 'm', 'e', '"', ':'] + (enc_str(a.name) + (seq![
            ',',
            '"',
            'd',
            'a',
            't',
            'a',
            '_',
            't',
            'y',
            'p',
            'e',
            '"',
            ':',
        ] + (enc_dt(a.data_type) + (seq![',', '"', 'i', 's', '_', 'p', 'r', 'i', 'm', 'a', 'r', 'y', '"', ':']
            + (enc_bool(a.is_primary) + (seq![',', '"', 'n', 'o', 't', '_', 'n', 'u', 'l', 'l', '"', ':']
            + (enc_bool(a.not_null) + (seq!['}'] + r)))))))),
{
    let l1 = seq!['{', '"', 'n', 'a', 'm', 'e', '"', ':'];
    let l2 = seq![',', '"', 'd', 'a', 't', 'a', '_', 't', 'y', 'p', 'e', '"', ':'];
    let l3 = seq![',', '"', 'i', 's', '_', 'p', 'r', 'i', 'm', 'a', 'r', 'y', '"', ':'];
    let l4 = seq![',', '"', 'n', 'o', 't', '_', 'n', 'u', 'l', 'l', '"', ':'];
    let rb = seq!['}'];
    let c1 = l1 + enc_str(a.name);
    let c2 = c1 + l2;
    let c3 = c2 + enc_dt(a.data_type);
    let c4 = c3 + l3;
    let c5 = c4 + enc_bool(a.is_primary);
    let c6 = c5 + l4;
    let c7 = c6 + enc_bool(a.not_null);
    assert(enc_col(a) == c7 + rb);
    lemma_shift(c7, rb, r);
    lemma_shift(c6, enc_bool(a.not_null), rb + r);
    lemma_shift(c5, l4, enc_bool(a.not_null) + (rb + r));
    lemma_shift(c4, enc_bool(a.is_primary), l4 + (enc_bool(a.not_null) + (rb + r)));
    lemma_shift(c3, l3, enc_bool(a.is_primary) + (l4 + (enc_bool(a.not_null) + (rb + r))));
    lemma_shift(
        c2,
        enc_dt(a.data_type),
        l3 + (enc_bool(a.is_primary) + (l4 + (enc_bool(a.not_null) + (rb + r)))),
    );
    lemma_shift(
        c1,
        l2,
        enc_dt(a.data_type) + (l3 + (enc_bool(a.is_primary) + (l4 + (enc_bool(a.not_null) + (rb
            + r))))),
    );
    lemma_shift(
        l1,
        enc_str(a.name),
        l2 + (enc_dt(a.data_type) + (l3 + (enc_bool(a.is_primary) + (l4 + (enc_bool(a.not_null)
            + (rb + r)))))),
    );
}

proof fn lemma_cols_items_unique(
    s1: Seq<ColumnV>,
    s2: Seq<ColumnV>,
    i: int,
    j: int,
    r1: Seq<char>,
    r2: Seq<char>,
)
    requires
        0 <= i <= s1.len(),
        0 <= j <= s2.len(),
        enc_cols_items(s1, i) + (seq![']'] + r1) == enc_cols_items(s2, j) + (seq![']'] + r2),
    ensures
        s1.skip(i) == s2.skip(j),
        r1 == r2,
    decreases s1.len() - i,
{
    let lhs = enc_cols_items(s1, i) + (seq![']'] + r1);
    let rhs = enc_cols_items(s2, j) + (seq![']'] + r2);
    if i == s1.len() && j == s2.len() {
        assert(lhs =~= seq![']'] + r1);
        assert(rhs =~= seq![']'] + r2);
        lemma_strip_prefix(seq![']'], r1, r2);
        assert(s1.skip(i) =~= s2.skip(j));
    } else if i == s1.len() {
        assert(lhs =~= seq![']'] + r1);
        assert(lhs[0] == ']');
        let sep2 = if j + 1 < s2.len() {
            seq![',']
        } else {
            Seq::<char>::empty()
        };
        assert(enc_cols_items(s2, j) == (enc_col(s2[j]) + sep2) + enc_cols_items(s2, j + 1));
        lemma_shift(enc_col(s2[j]) + sep2, enc_cols_items(s2, j + 1), seq![']'] + r2);
        lemma_shift(enc_col(s2[j]), sep2, enc_cols_items(s2, j + 1) + (seq![']'] + r2));
        assert(rhs[0] == (enc_col(s2[j]) + (sep2 + (enc_cols_items(s2, j + 1) + (seq![']']
            + r2))))[0]);
        assert(rhs[0] == '{');
        assert(false);
    } else if j == s2.len() {
        assert(rhs =~= seq![']'] + r2);
        assert(rhs[0] == ']');
        let sep1 = if i + 1 < s1.len() {
            seq![',']
        } else {
            Seq::<char>::empty()
        };
        assert(enc_cols_items(s1, i) == (enc_col(s1[i]) + sep1) + enc_cols_items(s1, i + 1));
        lemma_shift(enc_col(s1[i]) + sep1, enc_cols_items(s1, i + 1), seq![']'] + r1);
        lemma_shift(enc_col(s1[i]), sep1, enc_cols_items(s1, i + 1) + (seq![']'] + r1));
        assert(lhs[0] == (enc_col(s1[i]) + (sep1 + (enc_cols_items(s1, i + 1) + (seq![']']
            + r1))))[0]);
        assert(lhs[0] == '{');
        assert(false);
    } else {
        let sep1 = if i + 1 < s1.len() {
            seq![',']
        } else {
            Seq::<char>::empty()
        };
        let sep2 = if j + 1 < s2.len() {
            seq![',']
        } else {
            Seq::<char>::empty()
        };
        let t1 = sep1 + (enc_cols_items(s1, i + 1) + (seq![']'] + r1));
        let t2 = sep2 + (enc_cols_items(s2, j + 1) + (seq![']'] + r2));
        assert(enc_cols_items(s1, i) == (enc_col(s1[i]) + sep1) + enc_cols_items(s1, i + 1));
        lemma_shift(enc_col(s1[i]) + sep1, enc_cols_items(s1, i + 1), seq![']'] + r1);
        lemma_shift(enc_col(s1[i]), sep1, enc_cols_items(s1, i + 1) + (seq![']'] + r1));
        assert(enc_cols_items(s2, j) == (enc_col(s2[j]) + sep2) + enc_cols_items(s2, j + 1));
        lemma_shift(enc_col(s2[j]) + sep2, enc_cols_items(s2, j + 1), seq![']'] + r2);
        lemma_shift(enc_col(s2[j]), sep2, enc_cols_items(s2, j + 1) + (seq![']'] + r2));
        assert(lhs == enc_col(s1[i]) + t1);
        assert(rhs == enc_col(s2[j]) + t2);
        lemma_col_unique(s1[i], s2[j], t1, t2);
        if i + 1 < s1.len() && j + 1 >= s2.len() {
            assert(t1[0] == ',');
            assert(t2 =~= seq![']'] + r2);
            assert(t2[0] == ']');
            assert(false);
        }
        if i + 1 >= s1.len() && j + 1 < s2.len() {
            assert(t2[0] == ',');
            assert(t1 =~= seq![']'] + r1);
            assert(t1[0] == ']');
            assert(false);
        }
        if i + 1 < s1.len() {
            lemma_strip_prefix(
                seq![','],
                enc_cols_items(s1, i + 1) + (seq![']'] + r1),
                enc_cols_items(s2, j + 1) + (seq![']'] + r2),
            );
        } else {
            assert(t1 =~= enc_cols_items(s1, i + 1) + (seq![']'] + r1));
            assert(t2 =~= enc_cols_items(s2, j + 1) + (seq![']'] + r2));
        }
        lemma_cols_items_unique(s1, s2, i + 1, j + 1, r1, r2);
        assert(s1.skip(i) =~= seq![s1[i]] + s1.skip(i + 1));
        assert(s2.skip(j) =~= seq![s2[j]] + s2.skip(j + 1));
    }
}

proof fn lemma_row_items_unique(
    s1: Seq<Seq<char>>,
    s2: Seq<Seq<char>>,
    i: int,
    j: int,
    r1: Seq<char>,
    r2: Seq<char>,
)
    requires
        0 <= i <= s1.len(),
        0 <= j <= s2.len(),
        enc_row_items(s1, i) + (seq![']'] + r1) == enc_row_items(s2, j) + (seq![']'] + r2),
    ensures
        s1.skip(i) == s2.skip(j),
        r1 == r2,
    decreases s1.len() - i,
{
    let lhs = enc_row_items(s1, i) + (seq![']'] + r1);
    let rhs = enc_row_items(s2, j) + (seq![']'] + r2);
    if i == s1.len() && j == s2.len() {
        assert(lhs =~= seq![']'] + r1);
        assert(rhs =~= seq![']'] + r2);
        lemma_strip_prefix(seq![']'], r1, r2);
        assert(s1.skip(i) =~= s2.skip(j));
    } else if i == s1.len() {
        assert(lhs =~= seq![']'] + r1);
        assert(rhs =~= enc_str(s2[j]) + ((if j + 1 < s2.len() {
            seq![',']
        } else {
            Seq::<char>::empty()
        }) + (enc_row_items(s2, j + 1) + (seq![']'] + r2))));
        assert(lhs[0] == ']');
        assert(rhs[0] == '"');
        assert(false);
    } else if j == s2.len() {
        assert(rhs =~= seq![']'] + r2);
        assert(lhs =~= enc_str(s1[i]) + ((if i + 1 < s1.len() {
            seq![',']
        } else {
            Seq::<char>::empty()
        }) + (enc_row_items(s1, i + 1) + (seq![']'] + r1))));
        assert(rhs[0] == ']');
        assert(lhs[0] == '"');
        assert(false);
    } else {
        let t1 = (if i + 1 < s1.len() {
            seq![',']
        } else {
            Seq::<char>::empty()
        }) + (enc_row_items(s1, i + 1) + (seq![']'] + r1));
        let t2 = (if j + 1 < s2.len() {
            seq![',']
        } else {
            Seq::<char>::empty()
        }) + (enc_row_items(s2, j + 1) + (seq![']'] + r2));
        assert(lhs =~= enc_str(s1[i]) + t1);
        assert(rhs =~= enc_str(s2[j]) + t2);
        lemma_str_unique(s1[i], s2[j], t1, t2);
        if i + 1 < s1.len() && j + 1 >= s2.len() {
            assert(t1[0] == ',');
            assert(t2 =~= seq![']'] + r2);
            assert(false);
        }
        if i + 1 >= s1.len() && j + 1 < s2.len() {
            assert(t2[0] == ',');
            assert(t1 =~= seq![']'] + r1);
            assert(false);
        }
        if i + 1 < s1.len() {
            lemma_strip_prefix(
                seq![','],
                enc_row_items(s1, i + 1) + (seq![']'] + r1),
                enc_row_items(s2, j + 1) + (seq![']'] + r2),
            );
        } else {
            assert(t1 =~= enc_row_items(s1, i + 1) + (seq![']'] + r1));
            assert(t2 =~= enc_row_items(s2, j + 1) + (seq![']'] + r2));
        }
        lemma_row_items_unique(s1, s2, i + 1, j + 1, r1, r2);
        assert(s1.skip(i) =~= seq![s1[i]] + s1.skip(i + 1));
        assert(s2.skip(j) =~= seq![s2[j]] + s2.skip(j + 1));
    }
}

proof fn lemma_row_unique(a: Seq<Seq<char>>, b: Seq<Seq<char>>, r1: Seq<char>, r2: Seq<char>)
    requires
        enc_row(a) + r1 == enc_row(b) + r2,
    ensures
        a == b,
        r1 == r2,
{
    assert(enc_row(a) + r1 =~= seq!['['] + (enc_row_items(a, 0) + (seq![']'] + r1)));
    assert(enc_row(b) + r2 =~= seq!['['] + (enc_row_items(b, 0) + (seq![']'] + r2)));
    lemma_strip_prefix(
        seq!['['],
        enc_row_items(a, 0) + (seq![']'] + r1),
        enc_row_items(b, 0) + (seq![']'] + r2),
    );
    lemma_row_items_unique(a, b, 0, 0, r1, r2);
    assert(a.skip(0) =~= a);
    assert(b.skip(0) =~= b);
}

proof fn lemma_data_items_unique(
    s1: Seq<Seq<Seq<char>>>,
    s2: Seq<Seq<Seq<char>>>,
    i: int,
    j: int,
    r1: Seq<char>,
    r2: Seq<char>,
)
    requires
        0 <= i <= s1.len(),
        0 <= j <= s2.len(),
        enc_data_items(s1, i) + (seq![']'] + r1) == enc_data_items(s2, j) + (seq![']'] + r2),
    ensures
        s1.skip(i) == s2.skip(j),
        r1 == r2,
    decreases s1.len() - i,
{
    let lhs = enc_data_items(s1, i) + (seq![']'] + r1);
    let rhs = enc_data_items(s2, j) + (seq![']'] + r2);
    if i == s1.len() && j == s2.len() {
        assert(lhs =~= seq![']'] + r1);
        assert(rhs =~= seq![']'] + r2);
        lemma_strip_prefix(seq![']'], r1, r2);
        assert(s1.skip(i) =~= s2.skip(j));
    } else if i == s1.len() {
        assert(lhs =~= seq![']'] + r1);
        assert(rhs =~= enc_row(s2[j]) + ((if j + 1 < s2.len() {
            seq![',']
        } else {
            Seq::<char>::empty()
        }) + (enc_data_items(s2, j + 1) + (seq![']'] + r2))));
        assert(lhs[0] == ']');
        assert(rhs[0] == '[');
        assert(false);
    } else if j == s2.len() {
        assert(rhs =~= seq![']'] + r2);
        assert(lhs =~= enc_row(s1[i]) + ((if i + 1 < s1.len() {
            seq![',']
        } else {
            Seq::<char>::empty()
        }) + (enc_data_items(s1, i + 1) + (seq![']'] + r1))));
        assert(rhs[0] == ']');
        assert(lhs[0] == '[');
        assert(false);
    } else {
        let t1 = (if i + 1 < s1.len() {
            seq![',']
        } else {
            Seq::<char>::empty()
        }) + (enc_data_items(s1, i + 1) + (seq![']'] + r1));
        let t2 = (if j + 1 < s2.len() {
            seq![',']
        } else {
            Seq::<char>::empty()
        }) + (enc_data_items(s2, j + 1) + (seq![']'] + r2));
        assert(lhs =~= enc_row(s1[i]) + t1);
        assert(rhs =~= enc_row(s2[j]) + t2);
        lemma_row_unique(s1[i], s2[j], t1, t2);
        if i + 1 < s1.len() && j + 1 >= s2.len() {
            assert(t1[0] == ',');
            assert(t2 =~= seq![']'] + r2);
            assert(false);
        }
        if i + 1 >= s1.len() && j + 1 < s2.len() {
            assert(t2[0] == ',');
            assert(t1 =~= seq![']'] + r1);
            assert(false);
        }
        if i + 1 < s1.len() {
            lemma_strip_prefix(
                seq![','],
                enc_data_items(s1, i + 1) + (seq![']'] + r1),
                enc_data_items(s2, j + 1) + (seq![']'] + r2),
            );
        } else {
            assert(t1 =~= enc_data_items(s1, i + 1) + (seq![']'] + r1));
            assert(t2 =~= enc_data_items(s2, j + 1) + (seq![']'] + r2));
        }
        lemma_data_items_unique(s1, s2, i + 1, j + 1, r1, r2);
        assert(s1.skip(i) =~= seq![s1[i]] + s1.skip(i + 1));
        assert(s2.skip(j) =~= seq![s2[j]] + s2.skip(j + 1));
    }
}

#[verifier::rlimit(100)]
proof fn lemma_table_unique(a: TableV, b: TableV, r1: Seq<char>, r2: Seq<char>)
    requires
        enc_table(a) + r1 == enc_table(b) + r2,
    ensures
        a == b,
        r1 == r2,
{
    let l1 = seq!['{', '"', 'n', 'a', 'm', 'e', '"', ':'];
    let l2 = seq![',', '"', 'c', 'o', 'l', 'u', 'm', 'n', 's', '"', ':'];
    let l3 = seq![',', '"', 'd', 'a', 't', 'a', '"', ':'];
    let ta = seq!['['] + (enc_cols_items(a.columns, 0) + (seq![']'] + (l3 + (seq!['['] + (
    enc_data_items(a.data, 0) + (seq![']'] + (seq!['}'] + r1)))))));
    let tb = seq!['['] + (enc_cols_items(b.columns, 0) + (seq![']'] + (l3 + (seq!['['] + (
    enc_data_items(b.data, 0) + (seq![']'] + (seq!['}'] + r2)))))));
    assert(enc_table(a) + r1 =~= l1 + (enc_str(a.name) + (l2 + ta)));
    assert(enc_table(b) + r2 =~= l1 + (enc_str(b.name) + (l2 + tb)));
    lemma_strip_prefix(l1, enc_str(a.name) + (l2 + ta), enc_str(b.name) + (l2 + tb));
    lemma_str_unique(a.name, b.name, l2 + ta, l2 + tb);
    lemma_strip_prefix(l2, ta, tb);
    lemma_strip_prefix(
        seq!['['],
        enc_cols_items(a.columns, 0) + (seq![']'] + (l3 + (seq!['['] + (enc_data_items(a.data, 0)
            + (seq![']'] + (seq!['}'] + r1)))))),
        enc_cols_items(b.columns, 0) + (seq![']'] + (l3 + (seq!['['] + (enc_data_items(b.data, 0)
            + (seq![']'] + (seq!['}'] + r2)))))),
    );
    lemma_cols_items_unique(
        a.columns,
        b.columns,
        0,
        0,
        l3 + (seq!['['] + (enc_data_items(a.data, 0) + (seq![']'] + (seq!['}'] + r1)))),
        l3 + (seq!['['] + (enc_data_items(b.data, 0) + (seq![']'] + (seq!['}'] + r2)))),
    );
    assert(a.columns.skip(0) =~= a.columns);
    assert(b.columns.skip(0) =~= b.columns);
    lemma_strip_prefix(
        l3,
        seq!['['] + (enc_data_items(a.data, 0) + (seq![']'] + (seq!['}'] + r1))),
        seq!['['] + (enc_data_items(b.data, 0) + (seq![']'] + (seq!['}'] + r2))),
    );
    lemma_strip_prefix(
        seq!['['],
        enc_data_items(a.data, 0) + (seq![']'] + (seq!['}'] + r1)),
        enc_data_items(b.data, 0) + (seq![']'] + (seq!['}'] + r2)),
    );
    lemma_data_items_unique(a.data, b.data, 0, 0, seq!['}'] + r1, seq!['}'] + r2);
    assert(a.data.skip(0) =~= a.data);
    assert(b.data.skip(0) =~= b.data);
    lemma_strip_prefix(seq!['}'], r1, r2);
    assert(a =~= b);
}

#[verifier::rlimit(100)]
#[verifier::spinoff_prover]
proof fn lemma_tables_items_unique(
    s1: Seq<TableV>,
    s2: Seq<TableV>,
    i: int,
    j: int,
    r1: Seq<char>,
    r2: Seq<char>,
)
    requires
        0 <= i <= s1.len(),
        0 <= j <= s2.len(),
        enc_tables_items(s1, i) + (seq![']'] + r1) == enc_tables_items(s2, j) + (seq![']'] + r2),
    ensures
        s1.skip(i) == s2.skip(j),
        r1 == r2,
    decreases s1.len() - i,
{
    let lhs = enc_tables_items(s1, i) + (seq![']'] + r1);
    let rhs = enc_tables_items(s2, j) + (seq![']'] + r2);
    if i == s1.len() && j == s2.len() {
        assert(lhs =~= seq![']'] + r1);
        assert(rhs =~= seq![']'] + r2);
        lemma_strip_prefix(seq![']'], r1, r2);
        assert(s1.skip(i) =~= s2.skip(j));
    } else if i == s1.len() {
        assert(lhs =~= seq![']'] + r1);
        assert(lhs[0] == ']');
        let sep2 = if j + 1 < s2.len() {
            seq![',']
        } else {
            Seq::<char>::empty()
        };
        assert(enc_tables_items(s2, j) == (enc_table(s2[j]) + sep2) + enc_tables_items(s2, j + 1));
        lemma_shift(enc_table(s2[j]) + sep2, enc_tables_items(s2, j + 1), seq![']'] + r2);
        lemma_shift(enc_table(s2[j]), sep2, enc_tables_items(s2, j + 1) + (seq![']'] + r2));
        assert(rhs[0] == (enc_table(s2[j]) + (sep2 + (enc_tables_items(s2, j + 1) + (seq![']']
            + r2))))[0]);
        assert(rhs[0] == '{');
        assert(false);
    } else if j == s2.len() {
        assert(rhs =~= seq![']'] + r2);
        assert(rhs[0] == ']');
        let sep1 = if i + 1 < s1.len() {
            seq![',']
        } else {
            Seq::<char>::empty()
        };
        assert(enc_tables_items(s1, i) == (enc_table(s1[i]) + sep1) + enc_tables_items(s1, i + 1));
        lemma_shift(enc_table(s1[i]) + sep1, enc_tables_items(s1, i + 1), seq![']'] + r1);
        lemma_shift(enc_table(s1[i]), sep1, enc_tables_items(s1, i + 1) + (seq![']'] + r1));
        assert(lhs[0] == (enc_table(s1[i]) + (sep1 + (enc_tables_items(s1, i + 1) + (seq![']']
            + r1))))[0]);
        assert(lhs[0] == '{');
        assert(false);
    } else {
        let sep1 = if i + 1 < s1.len() {
            seq![',']
        } else {
            Seq::<char>::empty()
        };
        let sep2 = if j + 1 < s2.len() {
            seq![',']
        } else {
            Seq::<char>::empty()
        };
        let t1 = sep1 + (enc_tables_items(s1, i + 1) + (seq![']'] + r1));
        let t2 = sep2 + (enc_tables_items(s2, j + 1) + (seq![']'] + r2));
        assert(enc_tables_items(s1, i) == (enc_table(s1[i]) + sep1) + enc_tables_items(s1, i + 1));
        lemma_shift(enc_table(s1[i]) + sep1, enc_tables_items(s1, i + 1), seq![']'] + r1);
        lemma_shift(enc_table(s1[i]), sep1, enc_tables_items(s1, i + 1) + (seq![']'] + r1));
        assert(enc_tables_items(s2, j) == (enc_table(s2[j]) + sep2) + enc_tables_items(s2, j + 1));
        lemma_shift(enc_table(s2[j]) + sep2, enc_tables_items(s2, j + 1), seq![']'] + r2);
        lemma_shift(enc_table(s2[j]), sep2, enc_tables_items(s2, j + 1) + (seq![']'] + r2));
        assert(lhs == enc_table(s1[i]) + t1);
        assert(rhs == enc_table(s2[j]) + t2);
        lemma_table_unique(s1[i], s2[j], t1, t2);
        if i + 1 < s1.len() && j + 1 >= s2.len() {
            assert(t1[0] == ',');
            assert(t2 =~= seq![']'] + r2);
            assert(false);
        }
        if i + 1 >= s1.len() && j + 1 < s2.len() {
            assert(t2[0] == ',');
            assert(t1 =~= seq![']'] + r1);
            assert(false);
        }
        if i + 1 < s1.len() {
            lemma_strip_prefix(
                seq![','],
                enc_tables_items(s1, i + 1) + (seq![']'] + r1),
                enc_tables_items(s2, j + 1) + (seq![']'] + r2),
            );
        } else {
            assert(t1 =~= enc_tables_items(s1, i + 1) + (seq![']'] + r1));
            assert(t2 =~= enc_tables_items(s2, j + 1) + (seq![']'] + r2));
        }
        lemma_tables_items_unique(s1, s2, i + 1, j + 1, r1, r2);
        assert(s1.skip(i) =~= seq![s1[i]] + s1.skip(i + 1));
        assert(s2.skip(j) =~= seq![s2[j]] + s2.skip(j + 1));
    }
}

/// LAW — the snapshot round trip: the canonical encoding is injective,
/// so a `load` of a `save`d document reproduces the identical set of
/// tables, columns and rows. Concretely: `save` returns exactly
/// `enc_db(db)`, `load` returns only databases whose encoding is the
/// given text, and two databases with the same encoding are equal.
pub proof fn lemma_snapshot_round_trip(a: Seq<TableV>, b: Seq<TableV>)
    requires
        enc_db(a) == enc_db(b),
    ensures
        a == b,
{
    let l = seq!['{', '"', 't', 'a', 'b', 'l', 'e', 's', '"', ':', '['];
    assert(enc_db(a) =~= l + (enc_tables_items(a, 0) + (seq![']'] + seq!['}'])));
    assert(enc_db(b) =~= l + (enc_tables_items(b, 0) + (seq![']'] + seq!['}'])));
    lemma_strip_prefix(
        l,
        enc_tables_items(a, 0) + (seq![']'] + seq!['}']),
        enc_tables_items(b, 0) + (seq![']'] + seq!['}']),
    );
    lemma_tables_items_unique(a, b, 0, 0, seq!['}'], seq!['}']);
    assert(a.skip(0) =~= a);
    assert(b.skip(0) =~= b);
}

/// Whether the characters `x` occupy the buffer at `pos`.
pub open spec fn sits(s: Seq<char>, pos: int, x: Seq<char>) -> bool {
    0 <= pos && pos + x.len() <= s.len() && s.subrange(pos, pos + x.len()) == x
}

/// The decoder's literal matcher: the given characters, verbatim.
pub open spec fn ps_lit(s: Seq<char>, pos: int, lit: Seq<char>) -> Option<int> {
    if sits(s, pos, lit) {
        Some(pos + lit.len())
    } else {
        None
    }
}

/// The body of a string literal after the opening quote: plain
/// characters until the closing quote, with exactly the two canonical
/// escapes accepted.
pub open spec fn ps_str_body(s: Seq<char>, pos: int) -> Option<(Seq<char>, int)>
    decreases s.len() - pos,
{
    if pos < 0 || pos >= s.len() {
        None
    } else if s[pos] == '"' {
        Some((Seq::empty(), pos + 1))
    } else if s[pos] == '\\' {
        if pos + 1 < s.len() && (s[pos + 1] == '"' || s[pos + 1] == '\\') {
            match ps_str_body(s, pos + 2) {
                None => None,
                Some((t, p)) => Some((seq![s[pos + 1]] + t, p)),
            }
        } else {
            None
        }
    } else {
        match ps_str_body(s, pos + 1) {
            None => None,
            Some((t, p)) => Some((seq![s[pos]] + t, p)),
        }
    }
}

/// A quoted string literal.
pub open spec fn ps_str(s: Seq<char>, pos: int) -> Option<(Seq<char>, int)> {
    if 0 <= pos && pos < s.len() && s[pos] == '"' {
        ps_str_body(s, pos + 1)
    } else {
        None
    }
}

/// Horner accumulation of the digit run starting at `pos`, refusing
/// values beyond the 32-bit range.
pub open spec fn ps_digits(s: Seq<char>, pos: int, acc: int) -> Option<(int, int)>
    decreases s.len() - pos,
{
    if pos < 0 || pos >= s.len() || !crate::values::is_digit(s[pos]) {
        Some((acc, pos))
    } else if acc * 10 + (s[pos] as int - '0' as int) > 0xFFFF_FFFF {
        None
    } else {
        ps_digits(s, pos + 1, acc * 10 + (s[pos] as int - '0' as int))
    }
}

/// A decimal number: `0` alone, or a run that must not start with `0`.
pub open spec fn ps_u32(s: Seq<char>, pos: int) -> Option<(int, int)> {
    if pos < 0 || pos >= s.len() || !crate::values::is_digit(s[pos]) {
        None
    } else if s[pos] == '0' {
        Some((0, pos + 1))
    } else {
        ps_digits(s, pos, 0)
    }
}

pub open spec fn ps_bool(s: Seq<char>, pos: int) -> Option<(bool, int)> {
    match ps_lit(s, pos, seq!['t', 'r', 'u', 'e']) {
        Some(p) => Some((true, p)),
        None => match ps_lit(s, pos, seq!['f', 'a', 'l', 's', 'e']) {
            Some(p) => Some((false, p)),
            None => None,
        },
    }
}

pub open spec fn ps_dt(s: Seq<char>, pos: int) -> Option<(DataType, int)> {
    match ps_lit(s, pos, seq!['{', '"', 'I', 'n', 't', '"', ':']) {
        Some(p1) => match ps_u32(s, p1) {
            None => None,
            Some((n, p2)) => match ps_lit(s, p2, seq!['}']) {
                Some(p3) => Some((DataType::Int(n as u32), p3)),
                None => None,
            },
        },
        None => match ps_lit(s, pos, seq!['{', '"', 'V', 'a', 'r', 'c', 'h', 'a', 'r', '"', ':']) {
            Some(p1) => match ps_u32(s, p1) {
                None => None,
                Some((n, p2)) => match ps_lit(s, p2, seq!['}']) {
                    Some(p3) => Some((DataType::Varchar(n as u32), p3)),
                    None => None,
                },
            },
            None => None,
        },
    }
}

#[verifier::opaque]
pub open spec fn ps_col(s: Seq<char>, pos: int) -> Option<(ColumnV, int)> {
    match ps_lit(s, pos, seq!['{', '"', 'n', 'a', 'm', 'e', '"', ':']) {
        None => None,
        Some(p1) => match ps_str(s, p1) {
            None => None,
            Some((name, p2)) => match ps_lit(
                s,
                p2,
                seq![',', '"', 'd', 'a', 't', 'a', '_', 't', 'y', 'p', 'e', '"', ':'],
            ) {
                None => None,
                Some(p3) => match ps_dt(s, p3) {
                    None => None,
                    Some((dt, p4)) => match ps_lit(
                        s,
                        p4,
                        seq![',', '"', 'i', 's', '_', 'p', 'r', 'i', 'm', 'a', 'r', 'y', '"', ':'],
                    ) {
                        None => None,
                        Some(p5) => match ps_bool(s, p5) {
                            None => None,
                            Some((pk, p6)) => match ps_lit(
                                s,
                                p6,
                                seq![',', '"', 'n', 'o', 't', '_', 'n', 'u', 'l', 'l', '"', ':'],
                            ) {
                                None => None,
                                Some(p7) => match ps_bool(s, p7) {
                                    None => None,
                                    Some((nn, p8)) => match ps_lit(s, p8, seq!['}']) {
                                        None => None,
                                        Some(p9) => Some(
                                            (
                                                ColumnV {
                                                    name,
                                                    data_type: dt,
                                                    is_primary: pk,
                                                    not_null: nn,
                                                },
                                                p9,
                                            ),
                                        ),
                                    },
                                },
                            },
                        },
                    },
                },
            },
        },
    }
}

/// The elements of a column list, ending at (and consuming) the
/// closing bracket.
pub open spec fn ps_cols_elems(s: Seq<char>, pos: int) -> Option<(Seq<ColumnV>, int)>
    decreases s.len() - pos,
{
    if pos < 0 || pos >= s.len() {
        None
    } else {
        match ps_col(s, pos) {
            None => None,
            Some((c, p)) => if p <= pos {
                None
            } else if p < s.len() && s[p] == ',' {
                match ps_cols_elems(s, p + 1) {
                    None => None,
                    Some((rest, q)) => Some((seq![c] + rest, q)),
                }
            } else if p < s.len() && s[p] == ']' {
                Some((seq![c], p + 1))
            } else {
                None
            },
        }
    }
}

pub open spec fn ps_cols(s: Seq<char>, pos: int) -> Option<(Seq<ColumnV>, int)> {
    if !(0 <= pos && pos < s.len() && s[pos] == '[') {
        None
    } else if pos + 1 < s.len() && s[pos + 1] == ']' {
        Some((Seq::empty(), pos + 2))
    } else {
        ps_cols_elems(s, pos + 1)
    }
}

/// The elements of a row (string cells), consuming the closing bracket.
pub open spec fn ps_row_elems(s: Seq<char>, pos: int) -> Option<(Seq<Seq<char>>, int)>
    decreases s.len() - pos,
{
    if pos < 0 || pos >= s.len() {
        None
    } else {
        match ps_str(s, pos) {
            None => None,
            Some((c, p)) => if p <= pos {
                None
            } else if p < s.len() && s[p] == ',' {
                match ps_row_elems(s, p + 1) {
                    None => None,
                    Some((rest, q)) => Some((seq![c] + rest, q)),
                }
            } else if p < s.len() && s[p] == ']' {
                Some((seq![c], p + 1))
            } else {
                None
            },
        }
    }
}

pub open spec fn ps_row(s: Seq<char>, pos: int) -> Option<(Seq<Seq<char>>, int)> {
    if !(0 <= pos && pos < s.len() && s[pos] == '[') {
        None
    } else if pos + 1 < s.len() && s[pos + 1] == ']' {
        Some((Seq::empty(), pos + 2))
    } else {
        ps_row_elems(s, pos + 1)
    }
}

/// The elements of the data array (rows), consuming the closing
/// bracket.
pub open spec fn ps_data_elems(s: Seq<char>, pos: int) -> Option<(Seq<Seq<Seq<char>>>, int)>
    decreases s.len() - pos,
{
    if pos < 0 || pos >= s.len() {
        None
    } else {
        match ps_row(s, pos) {
            None => None,
            Some((c, p)) => if p <= pos {
                None
            } else if p < s.len() && s[p] == ',' {
                match ps_data_elems(s, p + 1) {
                    None => None,
                    Some((rest, q)) => Some((seq![c] + rest, q)),
                }
            } else if p < s.len() && s[p] == ']' {
                Some((seq![c], p + 1))
            } else {
                None
            },
        }
    }
}

pub open spec fn ps_data(s: Seq<char>, pos: int) -> Option<(Seq<Seq<Seq<char>>>, int)> {
    if !(0 <= pos && pos < s.len() && s[pos] == '[') {
        None
    } else if pos + 1 < s.len() && s[pos + 1] == ']' {
        Some((Seq::empty(), pos + 2))
    } else {
        ps_data_elems(s, pos + 1)
    }
}

#[verifier::opaque]
pub open spec fn ps_table(s: Seq<char>, pos: int) -> Option<(TableV, int)> {
    match ps_lit(s, pos, seq!['{', '"', 'n', 'a', 'm', 'e', '"', ':']) {
        None => None,
        Some(p1) => match ps_str(s, p1) {
            None => None,
            Some((name, p2)) => match ps_lit(
                s,
                p2,
                seq![',', '"', 'c', 'o', 'l', 'u', 'm', 'n', 's', '"', ':'],
            ) {
                None => None,
                Some(p3) => match ps_cols(s, p3) {
                    None => None,
                    Some((cols, p4)) => match ps_lit(
                        s,
                        p4,
                        seq![',', '"', 'd', 'a', 't', 'a', '"', ':'],
                    ) {
                        None => None,
                        Some(p5) => match ps_data(s, p5) {
                            None => None,
                            Some((data, p6)) => match ps_lit(s, p6, seq!['}']) {
                                None => None,
                                Some(p7) => Some(
                                    ((TableV { name, columns: cols, data }), p7),
                                ),
                            },
                        },
                    },
                },
            },
        },
    }
}

/// The elements of the table array, consuming the closing bracket.
pub open spec fn ps_tables_elems(s: Seq<char>, pos: int) -> Option<(Seq<TableV>, int)>
    decreases s.len() - pos,
{
    if pos < 0 || pos >= s.len() {
        None
    } else {
        match ps_table(s, pos) {
            None => None,
            Some((c, p)) => if p <= pos {
                None
            } else if p < s.len() && s[p] == ',' {
                match ps_tables_elems(s, p + 1) {
                    None => None,
                    Some((rest, q)) => Some((seq![c] + rest, q)),
                }
            } else if p < s.len() && s[p] == ']' {
                Some((seq![c], p + 1))
            } else {
                None
            },
        }
    }
}

/// Closes the document: the table list followed by the final brace.
pub open spec fn ps_db_finish(s: Seq<char>, o: Option<(Seq<TableV>, int)>) -> Option<
    (Seq<TableV>, int),
> {
    match o {
        None => None,
        Some((ts, q)) => match ps_lit(s, q, seq!['}']) {
            Some(p2) => Some((ts, p2)),
            None => None,
        },
    }
}

/// Prepends already-parsed tables to the rest of the element list.
pub open spec fn tabs_compose(acc: Seq<TableV>, o: Option<(Seq<TableV>, int)>) -> Option<
    (Seq<TableV>, int),
> {
    match o {
        None => None,
        Some((ts, q)) => Some((acc + ts, q)),
    }
}

/// The whole snapshot document: the decoder's reading of the text.
pub open spec fn ps_db(s: Seq<char>, pos: int) -> Option<(Seq<TableV>, int)> {
    match ps_lit(s, pos, seq!['{', '"', 't', 'a', 'b', 'l', 'e', 's', '"', ':', '[']) {
        None => None,
        Some(p1) => if p1 < s.len() && s[p1] == ']' {
            match ps_lit(s, p1 + 1, seq!['}']) {
                Some(p2) => Some((Seq::empty(), p2)),
                None => None,
            }
        } else {
            ps_db_finish(s, ps_tables_elems(s, p1))
        },
    }
}

proof fn lemma_split_at(s: Seq<char>, pos: int, x: Seq<char>, y: Seq<char>)
    requires
        sits(s, pos, x + y),
    ensures
        sits(s, pos, x),
        sits(s, pos + x.len(), y),
{
    assert forall|k: int| 0 <= k < x.len() implies s.subrange(pos, pos + x.len())[k] == x[k] by {
        assert((x + y)[k] == x[k]);
        assert(s.subrange(pos, pos + (x + y).len())[k] == s[pos + k]);
    }
    assert(s.subrange(pos, pos + x.len()) =~= x);
    assert forall|k: int|
        0 <= k < y.len() implies s.subrange(pos + x.len(), pos + x.len() + y.len())[k]
        == y[k] by {
        assert((x + y)[x.len() + k] == y[k]);
        assert(s.subrange(pos, pos + (x + y).len())[x.len() + k] == s[pos + x.len() + k]);
    }
    assert(s.subrange(pos + x.len(), pos + x.len() + y.len()) =~= y);
}

/// Horner reading of a digit run, front first.
pub open spec fn horner(d: Seq<char>, acc: int) -> int
    decreases d.len(),
{
    if d.len() == 0 {
        acc
    } else {
        horner(d.drop_first(), acc * 10 + (d[0] as int - '0' as int))
    }
}

proof fn lemma_horner_last(d: Seq<char>, acc: int)
    requires
        d.len() > 0,
    ensures
        horner(d, acc) == horner(d.drop_last(), acc) * 10 + (d.last() as int - '0' as int),
    decreases d.len(),
{
    if d.len() == 1 {
        assert(d.drop_first() =~= Seq::<char>::empty());
        assert(d.drop_last() =~= Seq::<char>::empty());
        assert(horner(d, acc) == horner(d.drop_first(), acc * 10 + (d[0] as int - '0' as int)));
        assert(horner(Seq::<char>::empty(), acc * 10 + (d[0] as int - '0' as int)) == acc * 10 + (
        d[0] as int - '0' as int));
        assert(horner(Seq::<char>::empty(), acc) == acc);
        assert(d.last() == d[0]);
    } else {
        lemma_horner_last(d.drop_first(), acc * 10 + (d[0] as int - '0' as int));
        assert(d.drop_first().drop_last() =~= d.drop_last().drop_first());
        assert(d.drop_first().last() == d.last());
        assert(d.drop_last()[0] == d[0]);
        assert(horner(d.drop_last(), acc) == horner(
            d.drop_last().drop_first(),
            acc * 10 + (d[0] as int - '0' as int),
        ));
    }
}

proof fn lemma_horner_value(d: Seq<char>)
    ensures
        horner(d, 0) == crate::values::digits_value(d),
    decreases d.len(),
{
    if d.len() > 0 {
        lemma_horner_value(d.drop_last());
        lemma_horner_last(d, 0);
    }
}

proof fn lemma_horner_ge(d: Seq<char>, acc: int)
    requires
        crate::values::all_digits(d),
        acc >= 0,
    ensures
        horner(d, acc) >= acc,
    decreases d.len(),
{
    if d.len() > 0 {
        assert(crate::values::is_digit(d[0]));
        assert(crate::values::all_digits(d.drop_first()));
        lemma_horner_ge(d.drop_first(), acc * 10 + (d[0] as int - '0' as int));
    }
}

proof fn lemma_dec_digits_lead(n: int)
    requires
        n >= 1,
    ensures
        dec_digits(n)[0] != '0',
    decreases n,
{
    lemma_dec_digits_props(n);
    if n < 10 {
        assert(dec_digits(n)[0] == digit_char(n));
        assert(digit_char(n) as int == n + 48);
        assert('0' as int == 48);
    } else {
        lemma_dec_digits_props(n / 10);
        lemma_dec_digits_lead(n / 10);
        assert(dec_digits(n) == dec_digits(n / 10).push(digit_char(n % 10)));
        assert(dec_digits(n)[0] == dec_digits(n / 10)[0]);
    }
}

proof fn lemma_ps_digits_run(s: Seq<char>, pos: int, d: Seq<char>, acc: int)
    requires
        crate::values::all_digits(d),
        sits(s, pos, d),
        pos + d.len() == s.len() || !crate::values::is_digit(s[pos + d.len()]),
        0 <= acc,
        horner(d, acc) <= 0xFFFF_FFFF,
    ensures
        ps_digits(s, pos, acc) == Some((horner(d, acc), pos + d.len())),
    decreases d.len(),
{
    if d.len() == 0 {
        assert(horner(d, acc) == acc);
    } else {
        assert(s.subrange(pos, pos + d.len())[0] == s[pos]);
        assert(s[pos] == d[0]);
        assert(crate::values::is_digit(d[0]));
        let acc2 = acc * 10 + (d[0] as int - '0' as int);
        assert(crate::values::all_digits(d.drop_first()));
        assert(horner(d, acc) == horner(d.drop_first(), acc2));
        lemma_horner_ge(d.drop_first(), acc2);
        assert(acc2 <= 0xFFFF_FFFF);
        assert(d =~= seq![d[0]] + d.drop_first());
        lemma_split_at(s, pos, seq![d[0]], d.drop_first());
        lemma_ps_digits_run(s, pos + 1, d.drop_first(), acc2);
    }
}

proof fn lemma_ps_u32_complete(n: int, s: Seq<char>, pos: int)
    requires
        0 <= n <= 0xFFFF_FFFF,
        sits(s, pos, dec_digits(n)),
        pos + dec_digits(n).len() == s.len() || !crate::values::is_digit(
            s[pos + dec_digits(n).len()],
        ),
    ensures
        ps_u32(s, pos) == Some((n, pos + dec_digits(n).len())),
{
    lemma_dec_digits_props(n);
    let d = dec_digits(n);
    assert(s.subrange(pos, pos + d.len())[0] == s[pos]);
    assert(s[pos] == d[0]);
    assert(crate::values::is_digit(d[0]));
    if n == 0 {
        assert(d =~= seq![digit_char(0)]);
        assert(digit_char(0) as int == 48);
        assert(s[pos] == '0');
    } else {
        lemma_dec_digits_lead(n);
        assert(s[pos] != '0');
        lemma_horner_value(d);
        lemma_ps_digits_run(s, pos, d, 0);
    }
}

proof fn lemma_ps_str_body_complete(a: Seq<char>, s: Seq<char>, pos: int)
    requires
        sits(s, pos, esc_seq(a) + seq!['"']),
    ensures
        ps_str_body(s, pos) == Some((a, pos + esc_seq(a).len() + 1)),
    decreases a.len(),
{
    if a.len() == 0 {
        assert(esc_seq(a) + seq!['"'] =~= seq!['"']);
        assert(s.subrange(pos, pos + 1)[0] == s[pos]);
        assert(s[pos] == '"');
        assert(a =~= Seq::<char>::empty());
    } else {
        let a0 = a[0];
        assert(esc_seq(a) == esc_char(a0) + esc_seq(a.drop_first()));
        lemma_shift(esc_char(a0), esc_seq(a.drop_first()), seq!['"']);
        assert(esc_seq(a) + seq!['"'] == esc_char(a0) + (esc_seq(a.drop_first()) + seq!['"']));
        lemma_split_at(s, pos, esc_char(a0), esc_seq(a.drop_first()) + seq!['"']);
        if a0 == '"' || a0 == '\\' {
            assert(esc_char(a0) =~= seq!['\\', a0]);
            assert(s.subrange(pos, pos + 2)[0] == s[pos]);
            assert(s.subrange(pos, pos + 2)[1] == s[pos + 1]);
            assert(s[pos] == '\\');
            assert(s[pos + 1] == a0);
            lemma_ps_str_body_complete(a.drop_first(), s, pos + 2);
            assert(seq![a0] + a.drop_first() =~= a);
        } else {
            assert(esc_char(a0) =~= seq![a0]);
            assert(s.subrange(pos, pos + 1)[0] == s[pos]);
            assert(s[pos] == a0);
            lemma_ps_str_body_complete(a.drop_first(), s, pos + 1);
            assert(seq![a0] + a.drop_first() =~= a);
        }
    }
}

proof fn lemma_ps_str_complete(a: Seq<char>, s: Seq<char>, pos: int)
    requires
        sits(s, pos, enc_str(a)),
    ensures
        ps_str(s, pos) == Some((a, pos + enc_str(a).len())),
{
    lemma_shift(seq!['"'], esc_seq(a), seq!['"']);
    assert(enc_str(a) == seq!['"'] + (esc_seq(a) + seq!['"']));
    lemma_split_at(s, pos, seq!['"'], esc_seq(a) + seq!['"']);
    assert(s.subrange(pos, pos + 1)[0] == s[pos]);
    assert(s[pos] == '"');
    lemma_ps_str_body_complete(a, s, pos + 1);
}

proof fn lemma_ps_bool_complete(b: bool, s: Seq<char>, pos: int)
    requires
        sits(s, pos, enc_bool(b)),
    ensures
        ps_bool(s, pos) == Some((b, pos + enc_bool(b).len())),
{
    if b {
        assert(enc_bool(true) =~= seq!['t', 'r', 'u', 'e']);
    } else {
        assert(enc_bool(false) =~= seq!['f', 'a', 'l', 's', 'e']);
        if sits(s, pos, seq!['t', 'r', 'u', 'e']) {
            assert(s.subrange(pos, pos + 4)[0] == s[pos]);
            assert(s.subrange(pos, pos + 5)[0] == s[pos]);
            assert(false);
        }
    }
}

proof fn lemma_ps_dt_complete(dt: DataType, s: Seq<char>, pos: int)
    requires
        sits(s, pos, enc_dt(dt)),
    ensures
        ps_dt(s, pos) == Some((dt, pos + enc_dt(dt).len())),
{
    match dt {
        DataType::Int(w) => {
            let l = seq!['{', '"', 'I', 'n', 't', '"', ':'];
            lemma_shift(l, dec_digits(w as int), seq!['}']);
            assert(enc_dt(dt) == l + (dec_digits(w as int) + seq!['}']));
            lemma_split_at(s, pos, l, dec_digits(w as int) + seq!['}']);
            lemma_split_at(s, pos + 7, dec_digits(w as int), seq!['}']);
            let p2 = pos + 7 + dec_digits(w as int).len();
            assert(s.subrange(p2, p2 + 1)[0] == s[p2]);
            assert(s[p2] == '}');
            assert(!crate::values::is_digit('}'));
            lemma_ps_u32_complete(w as int, s, pos + 7);
            assert((w as int) as u32 == w);
        },
        DataType::Varchar(m) => {
            let l = seq!['{', '"', 'V', 'a', 'r', 'c', 'h', 'a', 'r', '"', ':'];
            lemma_shift(l, dec_digits(m as int), seq!['}']);
            assert(enc_dt(dt) == l + (dec_digits(m as int) + seq!['}']));
            lemma_split_at(s, pos, l, dec_digits(m as int) + seq!['}']);
            if sits(s, pos, seq!['{', '"', 'I', 'n', 't', '"', ':']) {
                assert(s.subrange(pos, pos + 7)[2] == s[pos + 2]);
                assert(s.subrange(pos, pos + 11)[2] == s[pos + 2]);
                assert(false);
            }
            lemma_split_at(s, pos + 11, dec_digits(m as int), seq!['}']);
            let p2 = pos + 11 + dec_digits(m as int).len();
            assert(s.subrange(p2, p2 + 1)[0] == s[p2]);
            assert(s[p2] == '}');
            assert(!crate::values::is_digit('}'));
            lemma_ps_u32_complete(m as int, s, pos + 11);
            assert((m as int) as u32 == m);
        },
    }
}

#[verifier::rlimit(100)]
#[verifier::spinoff_prover]
proof fn lemma_ps_col_complete(c: ColumnV, s: Seq<char>, pos: int)
    requires
        sits(s, pos, enc_col(c)),
    ensures
        ps_col(s, pos) == Some((c, pos + enc_col(c).len())),
        enc_col(c).len() >= 8,
{
    let l1 = seq!['{', '"', 'n', 'a', 'm', 'e', '"', ':'];
    let l2 = seq![',', '"', 'd', 'a', 't', 'a', '_', 't', 'y', 'p', 'e', '"', ':'];
    let l3 = seq![',', '"', 'i', 's', '_', 'p', 'r', 'i', 'm', 'a', 'r', 'y', '"', ':'];
    let l4 = seq![',', '"', 'n', 'o', 't', '_', 'n', 'u', 'l', 'l', '"', ':'];
    let rb = seq!['}'];
    reveal(ps_col);
    lemma_col_shape(c, Seq::empty());
    assert(enc_col(c) + Seq::empty() =~= enc_col(c));
    assert(rb + Seq::<char>::empty() =~= rb);
    let t5 = enc_bool(c.not_null) + rb;
    let t4 = l4 + t5;
    let t3 = enc_bool(c.is_primary) + t4;
    let t2 = l3 + t3;
    let t1 = enc_dt(c.data_type) + t2;
    let t0 = l2 + t1;
    let tn = enc_str(c.name) + t0;
    assert(enc_col(c) == l1 + tn);
    lemma_split_at(s, pos, l1, tn);
    let p1 = pos + 8;
    lemma_split_at(s, p1, enc_str(c.name), t0);
    lemma_ps_str_complete(c.name, s, p1);
    let p2 = p1 + enc_str(c.name).len();
    lemma_split_at(s, p2, l2, t1);
    let p3 = p2 + 13;
    lemma_split_at(s, p3, enc_dt(c.data_type), t2);
    lemma_ps_dt_complete(c.data_type, s, p3);
    let p4 = p3 + enc_dt(c.data_type).len();
    lemma_split_at(s, p4, l3, t3);
    let p5 = p4 + 14;
    lemma_split_at(s, p5, enc_bool(c.is_primary), t4);
    lemma_ps_bool_complete(c.is_primary, s, p5);
    let p6 = p5 + enc_bool(c.is_primary).len();
    lemma_split_at(s, p6, l4, t5);
    let p7 = p6 + 12;
    lemma_split_at(s, p7, enc_bool(c.not_null), rb);
    lemma_ps_bool_complete(c.not_null, s, p7);
    let p8 = p7 + enc_bool(c.not_null).len();
    assert(s.subrange(p8, p8 + 1)[0] == s[p8]);
    assert(s[p8] == '}');
    assert((ColumnV {
        name: c.name,
        data_type: c.data_type,
        is_primary: c.is_primary,
        not_null: c.not_null,
    }) =~= c);
    assert(ps_col(s, pos) == Some((c, p8 + 1)));
}

#[verifier::rlimit(100)]
#[verifier::spinoff_prover]
proof fn lemma_ps_cols_elems_complete(cs: Seq<ColumnV>, i: int, s: Seq<char>, pos: int)
    requires
        0 <= i < cs.len(),
        sits(s, pos, enc_cols_items(cs, i) + seq![']']),
    ensures
        ps_cols_elems(s, pos) == Some((cs.skip(i), pos + enc_cols_items(cs, i).len() + 1)),
    decreases cs.len() - i,
{
    let e = enc_col(cs[i]);
    let sep = if i + 1 < cs.len() {
        seq![',']
    } else {
        Seq::<char>::empty()
    };
    let rec = enc_cols_items(cs, i + 1);
    assert(enc_cols_items(cs, i) == (e + sep) + rec);
    lemma_shift(e + sep, rec, seq![']']);
    lemma_shift(e, sep, rec + seq![']']);
    assert(enc_cols_items(cs, i) + seq![']'] == e + (sep + (rec + seq![']'])));
    lemma_split_at(s, pos, e, sep + (rec + seq![']']));
    lemma_ps_col_complete(cs[i], s, pos);
    let p = pos + e.len();
    if i + 1 < cs.len() {
        lemma_split_at(s, p, sep, rec + seq![']']);
        assert(s.subrange(p, p + 1)[0] == s[p]);
        assert(s[p] == ',');
        lemma_ps_cols_elems_complete(cs, i + 1, s, p + 1);
        assert(seq![cs[i]] + cs.skip(i + 1) =~= cs.skip(i));
    } else {
        assert(rec =~= Seq::<char>::empty());
        assert(sep + (rec + seq![']']) =~= seq![']']);
        assert(sits(s, p, seq![']']));
        assert(s.subrange(p, p + 1)[0] == s[p]);
        assert(s[p] == ']');
        assert(seq![cs[i]] =~= cs.skip(i));
    }
}

proof fn lemma_ps_cols_complete(cols: Seq<ColumnV>, s: Seq<char>, pos: int)
    requires
        sits(s, pos, enc_cols(cols)),
    ensures
        ps_cols(s, pos) == Some((cols, pos + enc_cols(cols).len())),
        enc_cols(cols).len() >= 2,
{
    let items = enc_cols_items(cols, 0);
    assert(enc_cols(cols) == (seq!['['] + items) + seq![']']);
    lemma_shift(seq!['['], items, seq![']']);
    assert(enc_cols(cols) == seq!['['] + (items + seq![']']));
    lemma_split_at(s, pos, seq!['['], items + seq![']']);
    assert(s.subrange(pos, pos + 1)[0] == s[pos]);
    assert(s[pos] == '[');
    if cols.len() == 0 {
        assert(items =~= Seq::<char>::empty());
        assert(items + seq![']'] =~= seq![']']);
        assert(sits(s, pos + 1, seq![']']));
        assert(s.subrange(pos + 1, pos + 2)[0] == s[pos + 1]);
        assert(s[pos + 1] == ']');
        assert(cols =~= Seq::<ColumnV>::empty());
    } else {
        let e = enc_col(cols[0]);
        let sep = if 1 < cols.len() {
            seq![',']
        } else {
            Seq::<char>::empty()
        };
        assert(items == (e + sep) + enc_cols_items(cols, 1));
        lemma_col_shape(cols[0], Seq::empty());
        assert(e + Seq::empty() =~= e);
        assert(e[0] == '{');
        assert((items + seq![']'])[0] == items[0]);
        assert(items[0] == e[0]);
        assert(s.subrange(pos + 1, pos + 1 + (items + seq![']']).len())[0] == s[pos + 1]);
        assert(s[pos + 1] == '{');
        lemma_ps_cols_elems_complete(cols, 0, s, pos + 1);
        assert(cols.skip(0) =~= cols);
    }
}

proof fn lemma_ps_row_elems_complete(cs: Seq<Seq<char>>, i: int, s: Seq<char>, pos: int)
    requires
        0 <= i < cs.len(),
        sits(s, pos, enc_row_items(cs, i) + seq![']']),
    ensures
        ps_row_elems(s, pos) == Some((cs.skip(i), pos + enc_row_items(cs, i).len() + 1)),
    decreases cs.len() - i,
{
    let e = enc_str(cs[i]);
    let sep = if i + 1 < cs.len() {
        seq![',']
    } else {
        Seq::<char>::empty()
    };
    let rec = enc_row_items(cs, i + 1);
    assert(enc_row_items(cs, i) == (e + sep) + rec);
    lemma_shift(e + sep, rec, seq![']']);
    lemma_shift(e, sep, rec + seq![']']);
    assert(enc_row_items(cs, i) + seq![']'] == e + (sep + (rec + seq![']'])));
    lemma_split_at(s, pos, e, sep + (rec + seq![']']));
    lemma_ps_str_complete(cs[i], s, pos);
    let p = pos + e.len();
    if i + 1 < cs.len() {
        lemma_split_at(s, p, sep, rec + seq![']']);
        assert(s.subrange(p, p + 1)[0] == s[p]);
        assert(s[p] == ',');
        lemma_ps_row_elems_complete(cs, i + 1, s, p + 1);
        assert(seq![cs[i]] + cs.skip(i + 1) =~= cs.skip(i));
    } else {
        assert(rec =~= Seq::<char>::empty());
        assert(sep + (rec + seq![']']) =~= seq![']']);
        assert(sits(s, p, seq![']']));
        assert(s.subrange(p, p + 1)[0] == s[p]);
        assert(s[p] == ']');
        assert(seq![cs[i]] =~= cs.skip(i));
    }
}

proof fn lemma_ps_row_complete(row: Seq<Seq<char>>, s: Seq<char>, pos: int)
    requires
        sits(s, pos, enc_row(row)),
    ensures
        ps_row(s, pos) == Some((row, pos + enc_row(row).len())),
        enc_row(row).len() >= 2,
{
    let items = enc_row_items(row, 0);
    assert(enc_row(row) == (seq!['['] + items) + seq![']']);
    lemma_shift(seq!['['], items, seq![']']);
    assert(enc_row(row) == seq!['['] + (items + seq![']']));
    lemma_split_at(s, pos, seq!['['], items + seq![']']);
    assert(s.subrange(pos, pos + 1)[0] == s[pos]);
    assert(s[pos] == '[');
    if row.len() == 0 {
        assert(items =~= Seq::<char>::empty());
        assert(items + seq![']'] =~= seq![']']);
        assert(sits(s, pos + 1, seq![']']));
        assert(s.subrange(pos + 1, pos + 2)[0] == s[pos + 1]);
        assert(s[pos + 1] == ']');
        assert(row =~= Seq::<Seq<char>>::empty());
    } else {
        let e = enc_str(row[0]);
        let sep = if 1 < row.len() {
            seq![',']
        } else {
            Seq::<char>::empty()
        };
        assert(items == (e + sep) + enc_row_items(row, 1));
        assert(e == (seq!['"'] + esc_seq(row[0])) + seq!['"']);
        assert(e[0] == '"');
        assert((items + seq![']'])[0] == items[0]);
        assert(items[0] == e[0]);
        assert(s.subrange(pos + 1, pos + 1 + (items + seq![']']).len())[0] == s[pos + 1]);
        assert(s[pos + 1] == '"');
        lemma_ps_row_elems_complete(row, 0, s, pos + 1);
        assert(row.skip(0) =~= row);
    }
}

proof fn lemma_ps_data_elems_complete(cs: Seq<Seq<Seq<char>>>, i: int, s: Seq<char>, pos: int)
    requires
        0 <= i < cs.len(),
        sits(s, pos, enc_data_items(cs, i) + seq![']']),
    ensures
        ps_data_elems(s, pos) == Some((cs.skip(i), pos + enc_data_items(cs, i).len() + 1)),
    decreases cs.len() - i,
{
    let e = enc_row(cs[i]);
    let sep = if i + 1 < cs.len() {
        seq![',']
    } else {
        Seq::<char>::empty()
    };
    let rec = enc_data_items(cs, i + 1);
    assert(enc_data_items(cs, i) == (e + sep) + rec);
    lemma_shift(e + sep, rec, seq![']']);
    lemma_shift(e, sep, rec + seq![']']);
    assert(enc_data_items(cs, i) + seq![']'] == e + (sep + (rec + seq![']'])));
    lemma_split_at(s, pos, e, sep + (rec + seq![']']));
    lemma_ps_row_complete(cs[i], s, pos);
    let p = pos + e.len();
    if i + 1 < cs.len() {
        lemma_split_at(s, p, sep, rec + seq![']']);
        assert(s.subrange(p, p + 1)[0] == s[p]);
        assert(s[p] == ',');
        lemma_ps_data_elems_complete(cs, i + 1, s, p + 1);
        assert(seq![cs[i]] + cs.skip(i + 1) =~= cs.skip(i));
    } else {
        assert(rec =~= Seq::<char>::empty());
        assert(sep + (rec + seq![']']) =~= seq![']']);
        assert(sits(s, p, seq![']']));
        assert(s.subrange(p, p + 1)[0] == s[p]);
        assert(s[p] == ']');
        assert(seq![cs[i]] =~= cs.skip(i));
    }
}

proof fn lemma_ps_data_complete(data: Seq<Seq<Seq<char>>>, s: Seq<char>, pos: int)
    requires
        sits(s, pos, enc_data(data)),
    ensures
        ps_data(s, pos) == Some((data, pos + enc_data(data).len())),
        enc_data(data).len() >= 2,
{
    let items = enc_data_items(data, 0);
    assert(enc_data(data) == (seq!['['] + items) + seq![']']);
    lemma_shift(seq!['['], items, seq![']']);
    assert(enc_data(data) == seq!['['] + (items + seq![']']));
    lemma_split_at(s, pos, seq!['['], items + seq![']']);
    assert(s.subrange(pos, pos + 1)[0] == s[pos]);
    assert(s[pos] == '[');
    if data.len() == 0 {
        assert(items =~= Seq::<char>::empty());
        assert(items + seq![']'] =~= seq![']']);
        assert(sits(s, pos + 1, seq![']']));
        assert(s.subrange(pos + 1, pos + 2)[0] == s[pos + 1]);
        assert(s[pos + 1] == ']');
        assert(data =~= Seq::<Seq<Seq<char>>>::empty());
    } else {
        let e = enc_row(data[0]);
        let sep = if 1 < data.len() {
            seq![',']
        } else {
            Seq::<char>::empty()
        };
        assert(items == (e + sep) + enc_data_items(data, 1));
        assert(e == (seq!['['] + enc_row_items(data[0], 0)) + seq![']']);
        assert(e[0] == '[');
        assert((items + seq![']'])[0] == items[0]);
        assert(items[0] == e[0]);
        assert(s.subrange(pos + 1, pos + 1 + (items + seq![']']).len())[0] == s[pos + 1]);
        assert(s[pos + 1] == '[');
        lemma_ps_data_elems_complete(data, 0, s, pos + 1);
        assert(data.skip(0) =~= data);
    }
}

/// Reassociates a table encoding followed by a remainder into its
/// right-nested reading.
#[verifier::spinoff_prover]
proof fn lemma_table_shape(t: TableV, r: Seq<char>)
    ensures
        enc_table(t) + r == seq!['{', '"', 'n', 'a', 'm', 'e', '"', ':'] + (enc_str(t.name) + (seq![
            ',',
            '"',
            'c',
            'o',
            'l',
            'u',
            'm',
            'n',
            's',
            '"',
            ':',
        ] + (enc_cols(t.columns) + (seq![',', '"', 'd', 'a', 't', 'a', '"', ':'] + (enc_data(t.data)
            + (seq!['}'] + r)))))),
{
    let l1 = seq!['{', '"', 'n', 'a', 'm', 'e', '"', ':'];
    let l2 = seq![',', '"', 'c', 'o', 'l', 'u', 'm', 'n', 's', '"', ':'];
    let l3 = seq![',', '"', 'd', 'a', 't', 'a', '"', ':'];
    let rb = seq!['}'];
    let c1 = l1 + enc_str(t.name);
    let c2 = c1 + l2;
    let c3 = c2 + enc_cols(t.columns);
    let c4 = c3 + l3;
    let c5 = c4 + enc_data(t.data);
    assert(enc_table(t) == c5 + rb);
    lemma_shift(c5, rb, r);
    lemma_shift(c4, enc_data(t.data), rb + r);
    lemma_shift(c3, l3, enc_data(t.data) + (rb + r));
    lemma_shift(c2, enc_cols(t.columns), l3 + (enc_data(t.data) + (rb + r)));
    lemma_shift(c1, l2, enc_cols(t.columns) + (l3 + (enc_data(t.data) + (rb + r))));
    lemma_shift(
        l1,
        enc_str(t.name),
        l2 + (enc_cols(t.columns) + (l3 + (enc_data(t.data) + (rb + r)))),
    );
}

#[verifier::rlimit(100)]
#[verifier::spinoff_prover]
proof fn lemma_ps_table_complete(t: TableV, s: Seq<char>, pos: int)
    requires
        sits(s, pos, enc_table(t)),
    ensures
        ps_table(s, pos) == Some((t, pos + enc_table(t).len())),
        enc_table(t).len() >= 8,
{
    let l1 = seq!['{', '"', 'n', 'a', 'm', 'e', '"', ':'];
    let l2 = seq![',', '"', 'c', 'o', 'l', 'u', 'm', 'n', 's', '"', ':'];
    let l3 = seq![',', '"', 'd', 'a', 't', 'a', '"', ':'];
    let rb = seq!['}'];
    reveal(ps_table);
    lemma_table_shape(t, Seq::empty());
    assert(enc_table(t) + Seq::empty() =~= enc_table(t));
    assert(rb + Seq::<char>::empty() =~= rb);
    let t4 = enc_data(t.data) + rb;
    let t3 = l3 + t4;
    let t2 = enc_cols(t.columns) + t3;
    let t1 = l2 + t2;
    let tn = enc_str(t.name) + t1;
    assert(enc_table(t) == l1 + tn);
    lemma_split_at(s, pos, l1, tn);
    let p1 = pos + 8;
    lemma_split_at(s, p1, enc_str(t.name), t1);
    lemma_ps_str_complete(t.name, s, p1);
    let p2 = p1 + enc_str(t.name).len();
    lemma_split_at(s, p2, l2, t2);
    let p3 = p2 + 11;
    lemma_split_at(s, p3, enc_cols(t.columns), t3);
    lemma_ps_cols_complete(t.columns, s, p3);
    let p4 = p3 + enc_cols(t.columns).len();
    lemma_split_at(s, p4, l3, t4);
    let p5 = p4 + 8;
    lemma_split_at(s, p5, enc_data(t.data), rb);
    lemma_ps_data_complete(t.data, s, p5);
    let p6 = p5 + enc_data(t.data).len();
    assert(s.subrange(p6, p6 + 1)[0] == s[p6]);
    assert(s[p6] == '}');
    assert((TableV { name: t.name, columns: t.columns, data: t.data }) =~= t);
    assert(ps_table(s, pos) == Some((t, p6 + 1)));
}

#[verifier::rlimit(100)]
#[verifier::spinoff_prover]
proof fn lemma_ps_tables_elems_complete(ts: Seq<TableV>, i: int, s: Seq<char>, pos: int)
    requires
        0 <= i < ts.len(),
        sits(s, pos, enc_tables_items(ts, i) + seq![']']),
    ensures
        ps_tables_elems(s, pos) == Some((ts.skip(i), pos + enc_tables_items(ts, i).len() + 1)),
    decreases ts.len() - i,
{
    let e = enc_table(ts[i]);
    let sep = if i + 1 < ts.len() {
        seq![',']
    } else {
        Seq::<char>::empty()
    };
    let rec = enc_tables_items(ts, i + 1);
    assert(enc_tables_items(ts, i) == (e + sep) + rec);
    lemma_shift(e + sep, rec, seq![']']);
    lemma_shift(e, sep, rec + seq![']']);
    assert(enc_tables_items(ts, i) + seq![']'] == e + (sep + (rec + seq![']'])));
    lemma_split_at(s, pos, e, sep + (rec + seq![']']));
    lemma_ps_table_complete(ts[i], s, pos);
    let p = pos + e.len();
    if i + 1 < ts.len() {
        lemma_split_at(s, p, sep, rec + seq![']']);
        assert(s.subrange(p, p + 1)[0] == s[p]);
        assert(s[p] == ',');
        lemma_ps_tables_elems_complete(ts, i + 1, s, p + 1);
        assert(seq![ts[i]] + ts.skip(i + 1) =~= ts.skip(i));
    } else {
        assert(rec =~= Seq::<char>::empty());
        assert(sep + (rec + seq![']']) =~= seq![']']);
        assert(sits(s, p, seq![']']));
        assert(s.subrange(p, p + 1)[0] == s[p]);
        assert(s[p] == ']');
        assert(seq![ts[i]] =~= ts.skip(i));
    }
}

/// LAW — decoder completeness: the decoder accepts every canonical
/// document and reads back exactly the encoded tables.
#[verifier::rlimit(100)]
#[verifier::spinoff_prover]
pub proof fn lemma_ps_db_complete(ts: Seq<TableV>, s: Seq<char>)
    requires
        s == enc_db(ts),
    ensures
        ps_db(s, 0) == Some((ts, s.len() as int)),
{
    let l = seq!['{', '"', 't', 'a', 'b', 'l', 'e', 's', '"', ':', '['];
    let items = enc_tables_items(ts, 0);
    assert(enc_db(ts) == (l + items) + seq![']', '}']);
    assert(seq![']', '}'] =~= seq![']'] + seq!['}']);
    lemma_shift(l + items, seq![']'], seq!['}']);
    lemma_shift(l, items, seq![']']);
    lemma_shift(l, items + seq![']'], seq!['}']);
    assert(enc_db(ts) == l + ((items + seq![']']) + seq!['}']));
    assert(sits(s, 0, enc_db(ts))) by {
        assert(s.subrange(0, s.len() as int) =~= s);
    }
    lemma_split_at(s, 0, l, (items + seq![']']) + seq!['}']);
    lemma_split_at(s, 11, items + seq![']'], seq!['}']);
    let pb: int = 11 + items.len() as int + 1;
    assert(s.subrange(pb, pb + 1)[0] == s[pb]);
    assert(s[pb] == '}');
    if ts.len() == 0 {
        assert(items =~= Seq::<char>::empty());
        assert(items + seq![']'] =~= seq![']']);
        assert(sits(s, 11, seq![']']));
        assert(s.subrange(11, 12)[0] == s[11int]);
        assert(s[11int] == ']');
        assert(ts =~= Seq::<TableV>::empty());
        assert(ps_db(s, 0) == Some((Seq::<TableV>::empty(), pb + 1)));
    } else {
        let e = enc_table(ts[0]);
        let sep = if 1 < ts.len() {
            seq![',']
        } else {
            Seq::<char>::empty()
        };
        assert(items == (e + sep) + enc_tables_items(ts, 1));
        lemma_table_shape(ts[0], Seq::empty());
        assert(e + Seq::empty() =~= e);
        assert(e[0] == '{');
        assert((items + seq![']'])[0] == items[0]);
        assert(items[0] == e[0]);
        assert(s.subrange(11, 11 + (items + seq![']']).len() as int)[0] == s[11int]);
        assert(s[11int] == '{');
        lemma_ps_tables_elems_complete(ts, 0, s, 11);
        assert(ts.skip(0) =~= ts);
        assert(ps_db_finish(s, ps_tables_elems(s, 11)) == Some((ts, pb + 1)));
    }
}

fn p_lit(v: &Vec<char>, pos: usize, lit: &[char]) -> (r: Option<usize>)
    ensures
        match r {
            Some(p) => pos <= p <= v@.len() && (lit@.len() > 0 ==> pos < p) && ps_lit(
                v@,
                pos as int,
                lit@,
            ) == Some(p as int),
            None => ps_lit(v@, pos as int, lit@) is None,
        },
{
    if pos > v.len() || lit.len() > v.len() - pos {
        return None;
    }
    let n = v.len();
    let mut i: usize = 0;
    while i < lit.len()
        invariant
            i <= lit@.len(),
            n == v@.len(),
            pos + lit@.len() <= n,
            forall|k: int| 0 <= k < i ==> v@[pos + k] == lit@[k],
        decreases lit@.len() - i,
    {
        if v[pos + i] != lit[i] {
            proof {
                assert(v@.subrange(pos as int, pos + lit@.len())[i as int] != lit@[i as int]);
            }
            return None;
        }
        i += 1;
    }
    proof {
        assert(v@.subrange(pos as int, pos + lit@.len()) =~= lit@);
    }
    Some(pos + lit.len())
}

fn p_string(v: &Vec<char>, pos: usize) -> (r: Option<(String, usize)>)
    ensures
        match r {
            Some(p) => pos < p.1 <= v@.len() && ps_str(v@, pos as int) == Some((p.0@, p.1 as int)),
            None => ps_str(v@, pos as int) is None,
        },
{
    if pos >= v.len() || v[pos] != '"' {
        return None;
    }
    let mut out = String::new();
    let mut i: usize = pos + 1;
    proof {
        assert(ps_str(v@, pos as int) == ps_str_body(v@, pos + 1));
    }
    loop
        invariant
            pos < i <= v@.len(),
            ps_str(v@, pos as int) == (match ps_str_body(v@, i as int) {
                Some(t) => Some((out@ + t.0, t.1)),
                None => None::<(Seq<char>, int)>,
            }),
        decreases v@.len() - i,
    {
        proof {
            if i == pos + 1 && ps_str_body(v@, i as int) is Some {
            }
        }
        if i >= v.len() {
            return None;
        }
        let c = v[i];
        if c == '"' {
            proof {
                assert(ps_str_body(v@, i as int) == Some((Seq::<char>::empty(), i + 1)));
                assert(out@ + Seq::<char>::empty() =~= out@);
            }
            return Some((out, i + 1));
        }
        if c == '\\' {
            if i + 1 >= v.len() {
                return None;
            }
            let e = v[i + 1];
            if e != '"' && e != '\\' {
                return None;
            }
            let ghost out0 = out@;
            push_char(&mut out, e);
            proof {
                if ps_str_body(v@, i + 2) is Some {
                    let t = ps_str_body(v@, i + 2).unwrap();
                    assert(out0 + (seq![v@[i + 1]] + t.0) =~= out@ + t.0);
                }
            }
            i += 2;
        } else {
            let ghost out0 = out@;
            push_char(&mut out, c);
            proof {
                if ps_str_body(v@, i + 1) is Some {
                    let t = ps_str_body(v@, i + 1).unwrap();
                    assert(out0 + (seq![v@[i as int]] + t.0) =~= out@ + t.0);
                }
            }
            i += 1;
        }
    }
}

fn p_u32(v: &Vec<char>, pos: usize) -> (r: Option<(u32, usize)>)
    ensures
        match r {
            Some(p) => pos < p.1 <= v@.len() && ps_u32(v@, pos as int) == Some(
                (p.0 as int, p.1 as int),
            ),
            None => ps_u32(v@, pos as int) is None,
        },
{
    if pos >= v.len() {
        return None;
    }
    let c0 = v[pos];
    if !('0' <= c0 && c0 <= '9') {
        return None;
    }
    if c0 == '0' {
        return Some((0, pos + 1));
    }
    let mut acc: u64 = 0;
    let mut i: usize = pos;
    proof {
        assert(ps_u32(v@, pos as int) == ps_digits(v@, pos as int, 0));
    }
    while i < v.len() && '0' <= v[i] && v[i] <= '9'
        invariant
            pos <= i <= v@.len(),
            acc <= 0xFFFF_FFFF,
            ps_u32(v@, pos as int) == ps_digits(v@, i as int, acc as int),
        decreases v@.len() - i,
    {
        let d: u64 = (v[i] as u64) - 48;
        let nv: u64 = acc * 10 + d;
        if nv > 0xFFFF_FFFF {
            proof {
                assert(ps_digits(v@, i as int, acc as int) is None);
            }
            return None;
        }
        acc = nv;
        i += 1;
    }
    proof {
        assert(ps_digits(v@, i as int, acc as int) == Some((acc as int, i as int)));
    }
    Some((acc as u32, i))
}

fn p_bool(v: &Vec<char>, pos: usize) -> (r: Option<(bool, usize)>)
    ensures
        match r {
            Some(p) => pos < p.1 <= v@.len() && ps_bool(v@, pos as int) == Some(
                (p.0, p.1 as int),
            ),
            None => ps_bool(v@, pos as int) is None,
        },
{
    let t = ['t', 'r', 'u', 'e'];
    proof {
        assert(t@ =~= seq!['t', 'r', 'u', 'e']);
    }
    match p_lit(v, pos, t.as_slice()) {
        Some(p) => Some((true, p)),
        None => {
            let f = ['f', 'a', 'l', 's', 'e'];
            proof {
                assert(f@ =~= seq!['f', 'a', 'l', 's', 'e']);
            }
            match p_lit(v, pos, f.as_slice()) {
                Some(p) => Some((false, p)),
                None => None,
            }
        },
    }
}

fn p_dt(v: &Vec<char>, pos: usize) -> (r: Option<(DataType, usize)>)
    ensures
        match r {
            Some(p) => pos < p.1 <= v@.len() && ps_dt(v@, pos as int) == Some((p.0, p.1 as int)),
            None => ps_dt(v@, pos as int) is None,
        },
{
    let li = ['{', '"', 'I', 'n', 't', '"', ':'];
    proof {
        assert(li@ =~= seq!['{', '"', 'I', 'n', 't', '"', ':']);
    }
    match p_lit(v, pos, li.as_slice()) {
        Some(p1) => {
            let (n, p2) = match p_u32(v, p1) {
                Some(x) => x,
                None => {
                    return None;
                },
            };
            let close = ['}'];
            proof {
                assert(close@ =~= seq!['}']);
            }
            match p_lit(v, p2, close.as_slice()) {
                Some(p3) => Some((DataType::Int(n), p3)),
                None => None,
            }
        },
        None => {
            let lv = ['{', '"', 'V', 'a', 'r', 'c', 'h', 'a', 'r', '"', ':'];
            proof {
                assert(lv@ =~= seq!['{', '"', 'V', 'a', 'r', 'c', 'h', 'a', 'r', '"', ':']);
            }
            match p_lit(v, pos, lv.as_slice()) {
                Some(p1) => {
                    let (n, p2) = match p_u32(v, p1) {
                        Some(x) => x,
                        None => {
                            return None;
                        },
                    };
                    let close = ['}'];
                    proof {
                        assert(close@ =~= seq!['}']);
                    }
                    match p_lit(v, p2, close.as_slice()) {
                        Some(p3) => Some((DataType::Varchar(n), p3)),
                        None => None,
                    }
                },
                None => None,
            }
        },
    }
}

fn p_col(v: &Vec<char>, pos: usize) -> (r: Option<(Column, usize)>)
    ensures
        match r {
            Some(p) => pos < p.1 <= v@.len() && ps_col(v@, pos as int) == Some(
                (p.0@, p.1 as int),
            ),
            None => ps_col(v@, pos as int) is None,
        },
{
    proof {
        reveal(ps_col);
    }
    let l1 = ['{', '"', 'n', 'a', 'm', 'e', '"', ':'];
    proof {
        assert(l1@ =~= seq!['{', '"', 'n', 'a', 'm', 'e', '"', ':']);
    }
    let p1 = match p_lit(v, pos, l1.as_slice()) {
        Some(p) => p,
        None => {
            return None;
        },
    };
    let (name, p2) = match p_string(v, p1) {
        Some(x) => x,
        None => {
            return None;
        },
    };
    let l2 = [',', '"', 'd', 'a', 't', 'a', '_', 't', 'y', 'p', 'e', '"', ':'];
    proof {
        assert(l2@ =~= seq![',', '"', 'd', 'a', 't', 'a', '_', 't', 'y', 'p', 'e', '"', ':']);
    }
    let p3 = match p_lit(v, p2, l2.as_slice()) {
        Some(p) => p,
        None => {
            return None;
        },
    };
    let (dt, p4) = match p_dt(v, p3) {
        Some(x) => x,
        None => {
            return None;
        },
    };
    let l3 = [',', '"', 'i', 's', '_', 'p', 'r', 'i', 'm', 'a', 'r', 'y', '"', ':'];
    proof {
        assert(l3@ =~= seq![',', '"', 'i', 's', '_', 'p', 'r', 'i', 'm', 'a', 'r', 'y', '"', ':']);
    }
    let p5 = match p_lit(v, p4, l3.as_slice()) {
        Some(p) => p,
        None => {
            return None;
        },
    };
    let (pk, p6) = match p_bool(v, p5) {
        Some(x) => x,
        None => {
            return None;
        },
    };
    let l4 = [',', '"', 'n', 'o', 't', '_', 'n', 'u', 'l', 'l', '"', ':'];
    proof {
        assert(l4@ =~= seq![',', '"', 'n', 'o', 't', '_', 'n', 'u', 'l', 'l', '"', ':']);
    }
    let p7 = match p_lit(v, p6, l4.as_slice()) {
        Some(p) => p,
        None => {
            return None;
        },
    };
    let (nn, p8) = match p_bool(v, p7) {
        Some(x) => x,
        None => {
            return None;
        },
    };
    let close = ['}'];
    proof {
        assert(close@ =~= seq!['}']);
    }
    let p9 = match p_lit(v, p8, close.as_slice()) {
        Some(p) => p,
        None => {
            return None;
        },
    };
    Some((Column { name, data_type: dt, is_primary: pk, not_null: nn }, p9))
}

fn p_cols(v: &Vec<char>, pos: usize) -> (r: Option<(Vec<Column>, usize)>)
    ensures
        match r {
            Some(p) => pos < p.1 <= v@.len() && ps_cols(v@, pos as int) == Some(
                (p.0.deep_view(), p.1 as int),
            ),
            None => ps_cols(v@, pos as int) is None,
        },
{
    if pos >= v.len() || v[pos] != '[' {
        return None;
    }
    let mut out: Vec<Column> = Vec::new();
    let mut i: usize = pos + 1;
    if i < v.len() && v[i] == ']' {
        proof {
            assert(out.deep_view() =~= Seq::<ColumnV>::empty());
        }
        return Some((out, i + 1));
    }
    proof {
        assert(ps_cols(v@, pos as int) == ps_cols_elems(v@, pos + 1));
    }
    loop
        invariant
            pos < i <= v@.len(),
            ps_cols(v@, pos as int) == (match ps_cols_elems(v@, i as int) {
                Some(t) => Some((out.deep_view() + t.0, t.1)),
                None => None::<(Seq<ColumnV>, int)>,
            }),
        decreases v@.len() - i,
    {
        let (c, p1) = match p_col(v, i) {
            Some(x) => x,
            None => {
                return None;
            },
        };
        let ghost dv0 = out.deep_view();
        let ghost cv = c@;
        out.push(c);
        proof {
            assert(out.deep_view() =~= dv0.push(cv));
        }
        if p1 < v.len() && v[p1] == ',' {
            proof {
                if ps_cols_elems(v@, p1 + 1) is Some {
                    let t = ps_cols_elems(v@, p1 + 1).unwrap();
                    assert(dv0 + (seq![cv] + t.0) =~= out.deep_view() + t.0);
                }
            }
            i = p1 + 1;
        } else if p1 < v.len() && v[p1] == ']' {
            proof {
                assert(ps_cols_elems(v@, i as int) == Some((seq![cv], p1 + 1)));
                assert(dv0 + seq![cv] =~= out.deep_view());
            }
            return Some((out, p1 + 1));
        } else {
            return None;
        }
    }
}

fn p_row(v: &Vec<char>, pos: usize) -> (r: Option<(Vec<String>, usize)>)
    ensures
        match r {
            Some(p) => pos < p.1 <= v@.len() && ps_row(v@, pos as int) == Some(
                (p.0.deep_view(), p.1 as int),
            ),
            None => ps_row(v@, pos as int) is None,
        },
{
    if pos >= v.len() || v[pos] != '[' {
        return None;
    }
    let mut out: Vec<String> = Vec::new();
    let mut i: usize = pos + 1;
    if i < v.len() && v[i] == ']' {
        proof {
            assert(out.deep_view() =~= Seq::<Seq<char>>::empty());
        }
        return Some((out, i + 1));
    }
    proof {
        assert(ps_row(v@, pos as int) == ps_row_elems(v@, pos + 1));
    }
    loop
        invariant
            pos < i <= v@.len(),
            ps_row(v@, pos as int) == (match ps_row_elems(v@, i as int) {
                Some(t) => Some((out.deep_view() + t.0, t.1)),
                None => None::<(Seq<Seq<char>>, int)>,
            }),
        decreases v@.len() - i,
    {
        let (c, p1) = match p_string(v, i) {
            Some(x) => x,
            None => {
                return None;
            },
        };
        let ghost dv0 = out.deep_view();
        let ghost cv = c@;
        out.push(c);
        proof {
            assert(out.deep_view() =~= dv0.push(cv));
        }
        if p1 < v.len() && v[p1] == ',' {
            proof {
                if ps_row_elems(v@, p1 + 1) is Some {
                    let t = ps_row_elems(v@, p1 + 1).unwrap();
                    assert(dv0 + (seq![cv] + t.0) =~= out.deep_view() + t.0);
                }
            }
            i = p1 + 1;
        } else if p1 < v.len() && v[p1] == ']' {
            proof {
                assert(ps_row_elems(v@, i as int) == Some((seq![cv], p1 + 1)));
                assert(dv0 + seq![cv] =~= out.deep_view());
            }
            return Some((out, p1 + 1));
        } else {
            return None;
        }
    }
}

fn p_data(v: &Vec<char>, pos: usize) -> (r: Option<(Vec<Vec<String>>, usize)>)
    ensures
        match r {
            Some(p) => pos < p.1 <= v@.len() && ps_data(v@, pos as int) == Some(
                (p.0.deep_view(), p.1 as int),
            ),
            None => ps_data(v@, pos as int) is None,
        },
{
    if pos >= v.len() || v[pos] != '[' {
        return None;
    }
    let mut out: Vec<Vec<String>> = Vec::new();
    let mut i: usize = pos + 1;
    if i < v.len() && v[i] == ']' {
        proof {
            assert(out.deep_view() =~= Seq::<Seq<Seq<char>>>::empty());
        }
        return Some((out, i + 1));
    }
    proof {
        assert(ps_data(v@, pos as int) == ps_data_elems(v@, pos + 1));
    }
    loop
        invariant
            pos < i <= v@.len(),
            ps_data(v@, pos as int) == (match ps_data_elems(v@, i as int) {
                Some(t) => Some((out.deep_view() + t.0, t.1)),
                None => None::<(Seq<Seq<Seq<char>>>, int)>,
            }),
        decreases v@.len() - i,
    {
        let (c, p1) = match p_row(v, i) {
            Some(x) => x,
            None => {
                return None;
            },
        };
        let ghost dv0 = out.deep_view();
        let ghost cv = c.deep_view();
        out.push(c);
        proof {
            assert(out.deep_view() =~= dv0.push(cv));
        }
        if p1 < v.len() && v[p1] == ',' {
            proof {
                if ps_data_elems(v@, p1 + 1) is Some {
                    let t = ps_data_elems(v@, p1 + 1).unwrap();
                    assert(dv0 + (seq![cv] + t.0) =~= out.deep_view() + t.0);
                }
            }
            i = p1 + 1;
        } else if p1 < v.len() && v[p1] == ']' {
            proof {
                assert(ps_data_elems(v@, i as int) == Some((seq![cv], p1 + 1)));
                assert(dv0 + seq![cv] =~= out.deep_view());
            }
            return Some((out, p1 + 1));
        } else {
            return None;
        }
    }
}

fn p_table(v: &Vec<char>, pos: usize) -> (r: Option<(Table, usize)>)
    ensures
        match r {
            Some(p) => pos < p.1 <= v@.len() && ps_table(v@, pos as int) == Some(
                (p.0@, p.1 as int),
            ),
            None => ps_table(v@, pos as int) is None,
        },
{
    proof {
        reveal(ps_table);
    }
    let l1 = ['{', '"', 'n', 'a', 'm', 'e', '"', ':'];
    proof {
        assert(l1@ =~= seq!['{', '"', 'n', 'a', 'm', 'e', '"', ':']);
    }
    let p1 = match p_lit(v, pos, l1.as_slice()) {
        Some(p) => p,
        None => {
            return None;
        },
    };
    let (name, p2) = match p_string(v, p1) {
        Some(x) => x,
        None => {
            return None;
        },
    };
    let l2 = [',', '"', 'c', 'o', 'l', 'u', 'm', 'n', 's', '"', ':'];
    proof {
        assert(l2@ =~= seq![',', '"', 'c', 'o', 'l', 'u', 'm', 'n', 's', '"', ':']);
    }
    let p3 = match p_lit(v, p2, l2.as_slice()) {
        Some(p) => p,
        None => {
            return None;
        },
    };
    let (cols, p4) = match p_cols(v, p3) {
        Some(x) => x,
        None => {
            return None;
        },
    };
    let l3 = [',', '"', 'd', 'a', 't', 'a', '"', ':'];
    proof {
        assert(l3@ =~= seq![',', '"', 'd', 'a', 't', 'a', '"', ':']);
    }
    let p5 = match p_lit(v, p4, l3.as_slice()) {
        Some(p) => p,
        None => {
            return None;
        },
    };
    let (data, p6) = match p_data(v, p5) {
        Some(x) => x,
        None => {
            return None;
        },
    };
    let close = ['}'];
    proof {
        assert(close@ =~= seq!['}']);
    }
    let p7 = match p_lit(v, p6, close.as_slice()) {
        Some(p) => p,
        None => {
            return None;
        },
    };
    Some((Table { name, columns: cols, data }, p7))
}

#[verifier::rlimit(100)]
#[verifier::spinoff_prover]
fn p_db(v: &Vec<char>, pos: usize) -> (r: Option<(Database, usize)>)
    ensures
        match r {
            Some(p) => pos < p.1 <= v@.len() && ps_db(v@, pos as int) == Some(
                (p.0@, p.1 as int),
            ),
            None => ps_db(v@, pos as int) is None,
        },
{
    let l1 = ['{', '"', 't', 'a', 'b', 'l', 'e', 's', '"', ':', '['];
    proof {
        assert(l1@ =~= seq!['{', '"', 't', 'a', 'b', 'l', 'e', 's', '"', ':', '[']);
    }
    let p1 = match p_lit(v, pos, l1.as_slice()) {
        Some(p) => p,
        None => {
            return None;
        },
    };
    let mut tables: Vec<Table> = Vec::new();
    let mut i: usize = p1;
    let l2 = ['}'];
    proof {
        assert(l2@ =~= seq!['}']);
    }
    if i < v.len() && v[i] == ']' {
        return match p_lit(v, i + 1, l2.as_slice()) {
            Some(p2) => {
                proof {
                    assert(tables.deep_view() =~= Seq::<TableV>::empty());
                }
                Some((Database { tables }, p2))
            },
            None => None,
        };
    }
    proof {
        assert(ps_db(v@, pos as int) == ps_db_finish(v@, ps_tables_elems(v@, p1 as int)));
        assert(tables.deep_view() =~= Seq::<TableV>::empty());
        if ps_tables_elems(v@, p1 as int) is Some {
            let t = ps_tables_elems(v@, p1 as int).unwrap();
            assert(Seq::<TableV>::empty() + t.0 =~= t.0);
        }
        assert(ps_tables_elems(v@, p1 as int) == tabs_compose(
            tables.deep_view(),
            ps_tables_elems(v@, p1 as int),
        ));
    }
    loop
        invariant
            pos <= p1 <= i,
            i <= v@.len(),
            ps_db(v@, pos as int) == ps_db_finish(v@, ps_tables_elems(v@, p1 as int)),
            ps_tables_elems(v@, p1 as int) == tabs_compose(
                tables.deep_view(),
                ps_tables_elems(v@, i as int),
            ),
        decreases v@.len() - i,
    {
        let (t, q1) = match p_table(v, i) {
            Some(x) => x,
            None => {
                return None;
            },
        };
        let ghost dv0 = tables.deep_view();
        let ghost tv = t@;
        tables.push(t);
        proof {
            assert(tables.deep_view() =~= dv0.push(tv));
        }
        if q1 < v.len() && v[q1] == ',' {
            proof {
                if ps_tables_elems(v@, q1 + 1) is Some {
                    let tt = ps_tables_elems(v@, q1 + 1).unwrap();
                    assert(dv0 + (seq![tv] + tt.0) =~= tables.deep_view() + tt.0);
                }
            }
            i = q1 + 1;
        } else if q1 < v.len() && v[q1] == ']' {
            let close = ['}'];
            proof {
                assert(close@ =~= seq!['}']);
                assert(ps_tables_elems(v@, i as int) == Some((seq![tv], q1 + 1)));
                assert(dv0 + seq![tv] =~= tables.deep_view());
                assert(ps_tables_elems(v@, p1 as int) == Some(
                    (tables.deep_view(), q1 + 1),
                ));
            }
            return match p_lit(v, q1 + 1, close.as_slice()) {
                Some(p2) => Some((Database { tables }, p2)),
                None => None,
            };
        } else {
            return None;
        }
    }
}

/// Checks the stored-table invariants on a freshly decoded table: one
/// cell per column in every row, and no duplicated non-NULL primary
/// cell.
fn table_ok(t: &Table) -> (r: bool)
    ensures
        r == table_wf(t@),
{
    let mut i: usize = 0;
    while i < t.data.len()
        invariant
            i <= t@.data.len(),
            forall|k: int| 0 <= k < i ==> (#[trigger] t@.data[k]).len() == t@.columns.len(),
        decreases t@.data.len() - i,
    {
        proof {
            assert(t.data@[i as int].deep_view() == t@.data[i as int]);
        }
        if t.data[i].len() != t.columns.len() {
            proof {
                assert(t@.data[i as int].len() != t@.columns.len());
                assert(!rows_aligned(t@));
            }
            return false;
        }
        i += 1;
    }
    proof {
        assert(rows_aligned(t@));
    }
    match t.find_pk_col() {
        None => true,
        Some(k) => {
            let mut a: usize = 0;
            while a < t.data.len()
                invariant
                    a <= t@.data.len(),
                    k < t@.columns.len(),
                    rows_aligned(t@),
                    pk_index(t@.columns) == Some(k as int),
                    forall|x: int, y: int|
                        0 <= x < y < t@.data.len() && x < a && !is_null_cell(
                            #[trigger] t@.data[x][k as int],
                        ) && !is_null_cell(#[trigger] t@.data[y][k as int]) ==> t@.data[x][k as int]
                            != t@.data[y][k as int],
                decreases t@.data.len() - a,
            {
                proof {
                    assert(t.data@[a as int].deep_view() == t@.data[a as int]);
                }
                if !is_null_str(t.data[a][k].as_str()) {
                    let mut b: usize = a + 1;
                    while b < t.data.len()
                        invariant
                            a < b <= t@.data.len(),
                            k < t@.columns.len(),
                            rows_aligned(t@),
                            pk_index(t@.columns) == Some(k as int),
                            a < t@.data.len(),
                            !is_null_cell(t@.data[a as int][k as int]),
                            forall|y: int|
                                a < y < b && !is_null_cell(#[trigger] t@.data[y][k as int])
                                    ==> t@.data[a as int][k as int] != t@.data[y][k as int],
                        decreases t@.data.len() - b,
                    {
                        proof {
                            assert(t.data@[b as int].deep_view() == t@.data[b as int]);
                        }
                        if !is_null_str(t.data[b][k].as_str()) && str_eq(
                            t.data[a][k].as_str(),
                            t.data[b][k].as_str(),
                        ) {
                            proof {
                                let kk = pk_index(t@.columns).unwrap();
                                assert(kk == k as int);
                                assert(!is_null_cell(t@.data[a as int][kk]) && !is_null_cell(
                                    t@.data[b as int][kk],
                                ) && t@.data[a as int][kk] == t@.data[b as int][kk]);
                                assert(!pk_unique(t@));
                            }
                            return false;
                        }
                        b += 1;
                    }
                }
                a += 1;
            }
            proof {
                assert(pk_unique(t@));
            }
            true
        },
    }
}

impl Database {
    /// Restores a database from a snapshot document. A document that is
    /// not the canonical encoding of a well-formed database is refused
    /// as malformed: a successful load returns a database whose own
    /// `save` reproduces the given text exactly.
    pub fn load(text: &str) -> (r: Result<Database, DbError>)
        ensures
            match r {
                Ok(db) => db_wf(db@) && text@ == enc_db(db@),
                Err(e) => e@ == DbErrorV::SnapshotFormatError,
            },
            (exists|ts: Seq<TableV>| db_wf(ts) && text@ == enc_db(ts)) ==> r is Ok,
    {
        let ghost prem = exists|ts: Seq<TableV>| db_wf(ts) && text@ == enc_db(ts);
        let ghost ts0: Seq<TableV> = if prem {
            choose|ts: Seq<TableV>| db_wf(ts) && text@ == enc_db(ts)
        } else {
            Seq::empty()
        };
        proof {
            if prem {
                lemma_ps_db_complete(ts0, text@);
            }
        }
        let v = str_chars(text);
        let (db, pos) = match p_db(&v, 0) {
            Some(x) => x,
            None => {
                proof {
                    assert(!prem);
                }
                return Err(DbError::SnapshotFormatError);
            },
        };
        proof {
            if prem {
                assert(ps_db(text@, 0) == Some((ts0, text@.len() as int)));
                assert(db@ == ts0 && pos as int == text@.len());
            }
        }
        if pos != v.len() {
            proof {
                assert(!prem);
            }
            return Err(DbError::SnapshotFormatError);
        }
        let mut i: usize = 0;
        while i < db.tables.len()
            invariant
                i <= db@.len(),
                prem == (exists|ts: Seq<TableV>| db_wf(ts) && text@ == enc_db(ts)),
                prem ==> db_wf(db@),
                forall|k: int| 0 <= k < i ==> table_wf(#[trigger] db@[k]),
            decreases db@.len() - i,
        {
            proof {
                assert(db.tables@[i as int].deep_view() == db@[i as int]);
            }
            if !table_ok(&db.tables[i]) {
                proof {
                    assert(!table_wf(db@[i as int]));
                    assert(!prem);
                }
                return Err(DbError::SnapshotFormatError);
            }
            i += 1;
        }
        proof {
            assert(db_wf(db@));
        }
        let re = db.save();
        if !str_eq(re.as_str(), text) {
            proof {
                assert(!prem);
            }
            return Err(DbError::SnapshotFormatError);
        }
        Ok(db)
    }

    /// Serializes the whole database to its canonical snapshot
    /// document. The embedding application owns where the text goes.
    pub fn save(&self) -> (r: String)
        ensures
            r@ == enc_db(self@),
    {
        let mut out = String::new();
        let l1 = ['{', '"', 't', 'a', 'b', 'l', 'e', 's', '"', ':', '['];
        push_lit(&mut out, l1.as_slice());
        push_tables_items(&mut out, &self.tables, 0);
        let l2 = [']', '}'];
        push_lit(&mut out, l2.as_slice());
        proof {
            assert(l1@ =~= seq!['{', '"', 't', 'a', 'b', 'l', 'e', 's', '"', ':', '[']);
            assert(l2@ =~= seq![']', '}']);
            assert(out@ =~= enc_db(self@));
        }
        out
    }
}

} // verus!
