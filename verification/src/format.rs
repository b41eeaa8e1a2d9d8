//! Human-readable table rendering: column widths from the widest
//! content, one header line, a dashed separator, and one line per row,
//! boxed with `|`. The contracts fix the rendered text character for
//! character, as `render_table` spells it out.

use vstd::prelude::*;
use vstd::string::*;

use crate::error::{DbError, DbErrorV};
use crate::model::{find_table, ColumnV, Database};
use crate::query::{is_wildcard, resolve_cols, resolve_cols_from, cols_compose};
use crate::values::{push_char, str_chars, trim_str, trimmed};
use vstd::pervasive::VecAdditionalExecFns;

verus! {

/// `n` spaces (none when `n` is not positive).
pub open spec fn spaces(n: int) -> Seq<char>
    decreases n,
{
    if n <= 0 {
        Seq::empty()
    } else {
        spaces(n - 1).push(' ')
    }
}

/// `n` dashes (none when `n` is not positive).
pub open spec fn dashes(n: int) -> Seq<char>
    decreases n,
{
    if n <= 0 {
        Seq::empty()
    } else {
        dashes(n - 1).push('-')
    }
}

pub open spec fn imax(a: int, b: int) -> int {
    if a >= b {
        a
    } else {
        b
    }
}

/// One rendered cell: a space, the content left-aligned and padded to
/// the column width, and a closing space.
pub open spec fn render_cell(content: Seq<char>, w: int) -> Seq<char> {
    seq![' '] + content + spaces(w - content.len()) + seq![' ']
}

/// The `|`-separated cells of one line, from position `i`; data cells
/// are rendered trimmed, headers as given.
pub open spec fn render_cells(cells: Seq<Seq<char>>, widths: Seq<int>, i: int, trim: bool) -> Seq<
    char,
>
    decreases cells.len() - i,
{
    if i < 0 || i >= cells.len() {
        Seq::empty()
    } else {
        (if i > 0 {
            seq!['|']
        } else {
            Seq::<char>::empty()
        }) + render_cell(
            if trim {
                trimmed(cells[i])
            } else {
                cells[i]
            },
            widths[i],
        ) + render_cells(cells, widths, i + 1, trim)
    }
}

/// One boxed line of the table.
pub open spec fn render_line(cells: Seq<Seq<char>>, widths: Seq<int>, trim: bool) -> Seq<char> {
    seq!['|'] + render_cells(cells, widths, 0, trim) + seq!['|']
}

pub open spec fn render_sep_items(widths: Seq<int>, i: int) -> Seq<char>
    decreases widths.len() - i,
{
    if i < 0 || i >= widths.len() {
        Seq::empty()
    } else {
        seq![' '] + dashes(widths[i]) + seq![' '] + (if i + 1 < widths.len() {
            seq!['|']
        } else {
            Seq::<char>::empty()
        }) + render_sep_items(widths, i + 1)
    }
}

/// The dashed separator line under the header.
pub open spec fn render_sep(widths: Seq<int>) -> Seq<char> {
    seq!['|'] + render_sep_items(widths, 0) + seq!['|']
}

/// The data lines from row `j`, each preceded by a newline.
pub open spec fn render_rows(data: Seq<Seq<Seq<char>>>, widths: Seq<int>, j: int) -> Seq<char>
    decreases data.len() - j,
{
    if j < 0 || j >= data.len() {
        Seq::empty()
    } else {
        seq!['\n'] + render_line(data[j], widths, true) + render_rows(data, widths, j + 1)
    }
}

/// The widest trimmed cell of column `i` among the rows from `j` (a
/// row too short to reach the column contributes nothing).
pub open spec fn max_cell(data: Seq<Seq<Seq<char>>>, i: int, j: int) -> int
    decreases data.len() - j,
{
    if j < 0 || j >= data.len() {
        0
    } else {
        imax(
            if 0 <= i < data[j].len() {
                trimmed(data[j][i]).len() as int
            } else {
                0
            },
            max_cell(data, i, j + 1),
        )
    }
}

/// Column `i`'s rendered width: the widest of 3, the header, and the
/// trimmed cells.
pub open spec fn col_width(headers: Seq<Seq<char>>, data: Seq<Seq<Seq<char>>>, i: int) -> int {
    imax(imax(3, headers[i].len() as int), max_cell(data, i, 0))
}

pub open spec fn table_widths(headers: Seq<Seq<char>>, data: Seq<Seq<Seq<char>>>) -> Seq<int> {
    Seq::new(headers.len(), |i: int| col_width(headers, data, i))
}

/// The whole rendered table: the header line, the separator, and one
/// line per row, joined with newlines.
pub open spec fn render_table(headers: Seq<Seq<char>>, data: Seq<Seq<Seq<char>>>) -> Seq<char> {
    let ws = table_widths(headers, data);
    render_line(headers, ws, false) + seq!['\n'] + render_sep(ws) + render_rows(data, ws, 0)
}

/// The width vector read mathematically.
pub open spec fn int_widths(ws: Seq<usize>) -> Seq<int> {
    ws.map_values(|w: usize| w as int)
}

/// The header texts a projection resolves to: the named columns'
/// names, in request order.
pub open spec fn header_names(cols: Seq<ColumnV>, idxs: Seq<int>) -> Seq<Seq<char>> {
    idxs.map_values(|i: int| cols[i].name)
}

/// Appends one rendered cell.
fn format_cell(out: &mut String, content: &str, width: usize)
    ensures
        final(out)@ == old(out)@ + render_cell(content@, width as int),
{
    let ghost before = out@;
    push_char(out, ' ');
    proof {
        assert(out@ =~= before + seq![' ']);
    }
    let v = str_chars(content);
    let mut i: usize = 0;
    while i < v.len()
        invariant
            i <= v@.len(),
            v@ == content@,
            out@ == before + seq![' '] + content@.take(i as int),
        decreases v@.len() - i,
    {
        let ghost mid = out@;
        push_char(out, v[i]);
        proof {
            assert(out@ =~= before + seq![' '] + content@.take(i as int + 1));
        }
        i += 1;
    }
    proof {
        assert(content@.take(v@.len() as int) =~= content@);
    }
    let n = v.len();
    let target: usize = if width > n {
        width - n
    } else {
        0
    };
    let mut pad: usize = 0;
    while pad < target
        invariant
            pad <= target,
            out@ == before + seq![' '] + content@ + spaces(pad as int),
        decreases target - pad,
    {
        let ghost mid = out@;
        push_char(out, ' ');
        proof {
            assert(spaces(pad as int + 1) == spaces(pad as int).push(' '));
            assert(out@ =~= before + seq![' '] + content@ + spaces(pad as int + 1));
        }
        pad += 1;
    }
    let ghost mid = out@;
    push_char(out, ' ');
    proof {
        assert(spaces(target as int) == spaces(width - content@.len()));
        assert(out@ =~= before + (seq![' '] + content@ + spaces(width - content@.len())
            + seq![' ']));
    }
}

/// Appends one rendered line: `|`-separated cells between outer bars.
fn format_line(out: &mut String, cells: &Vec<String>, widths: &Vec<usize>, trim_cells: bool)
    requires
        cells@.len() <= widths@.len(),
    ensures
        final(out)@ == old(out)@ + render_line(cells.deep_view(), int_widths(widths@), trim_cells),
{
    let ghost before = out@;
    let ghost cdv = cells.deep_view();
    let ghost ws = int_widths(widths@);
    push_char(out, '|');
    proof {
        assert(out@ =~= before + seq!['|']);
    }
    let mut i: usize = 0;
    while i < cells.len()
        invariant
            i <= cdv.len(),
            cdv == cells.deep_view(),
            ws == int_widths(widths@),
            cdv.len() <= ws.len(),
            out@ + render_cells(cdv, ws, i as int, trim_cells) == before + seq!['|']
                + render_cells(cdv, ws, 0, trim_cells),
        decreases cdv.len() - i,
    {
        if i > 0 {
            let ghost mid = out@;
            push_char(out, '|');
            proof {
                assert(out@ =~= mid + seq!['|']);
            }
        }
        let cell = if trim_cells {
            trim_str(cells[i].as_str())
        } else {
            cells[i].clone()
        };
        proof {
            assert(cells@[i as int]@ == cdv[i as int]);
            assert(cell@ == (if trim_cells {
                trimmed(cdv[i as int])
            } else {
                cdv[i as int]
            }));
            assert(ws[i as int] == widths@[i as int] as int);
        }
        let ghost mid2 = out@;
        format_cell(out, cell.as_str(), widths[i]);
        proof {
            let sep: Seq<char> = if i > 0 {
                seq!['|']
            } else {
                Seq::<char>::empty()
            };
            let rc = render_cell(cell@, ws[i as int]);
            assert(render_cells(cdv, ws, i as int, trim_cells) == sep + rc + render_cells(
                cdv,
                ws,
                i as int + 1,
                trim_cells,
            ));
            assert(out@ + render_cells(cdv, ws, i as int + 1, trim_cells) =~= (if i > 0 {
                mid2.subrange(0, mid2.len() - 1)
            } else {
                mid2
            }) + (sep + rc + render_cells(cdv, ws, i as int + 1, trim_cells)));
        }
        i += 1;
    }
    proof {
        assert(render_cells(cdv, ws, i as int, trim_cells) =~= Seq::<char>::empty());
        assert(out@ + Seq::<char>::empty() =~= out@);
    }
    let ghost mid3 = out@;
    push_char(out, '|');
    proof {
        assert(out@ =~= mid3 + seq!['|']);
        assert(out@ =~= before + (seq!['|'] + render_cells(cdv, ws, 0, trim_cells) + seq!['|']));
    }
}

/// Renders headers and rows as a boxed text table, exactly as
/// `render_table` spells it: the header line, a dashed separator, and
/// one line per row, joined with newlines; each column as wide as its
/// widest content (at least 3), each cell padded with one space either
/// side, data cells trimmed.
pub fn format_table(headers: Vec<String>, data: Vec<Vec<String>>) -> (r: String)
    requires
        forall|i: int| 0 <= i < data@.len() ==> (#[trigger] data@[i])@.len() <= headers@.len(),
    ensures
        r@ == render_table(headers.deep_view(), data.deep_view()),
        r@.len() > 0,
{
    let ghost hdv = headers.deep_view();
    let ghost ddv = data.deep_view();
    let mut widths: Vec<usize> = Vec::new();
    let mut i: usize = 0;
    while i < headers.len()
        invariant
            i <= hdv.len(),
            hdv == headers.deep_view(),
            widths@.len() == i,
            forall|x: int| 0 <= x < i ==> widths@[x] as int == imax(3, (#[trigger] hdv[x]).len() as int),
        decreases hdv.len() - i,
    {
        let w = headers[i].as_str().unicode_len();
        proof {
            assert(headers@[i as int]@ == hdv[i as int]);
        }
        widths.push(if w < 3 {
            3
        } else {
            w
        });
        i += 1;
    }
    let mut j: usize = 0;
    while j < data.len()
        invariant
            j <= ddv.len(),
            hdv == headers.deep_view(),
            ddv == data.deep_view(),
            widths@.len() == hdv.len(),
            forall|x: int| 0 <= x < ddv.len() ==> (#[trigger] ddv[x]).len() <= hdv.len(),
            forall|x: int|
                0 <= x < hdv.len() ==> col_width(hdv, ddv, x) == imax(
                    (#[trigger] widths@[x]) as int,
                    max_cell(ddv, x, j as int),
                ),
        decreases ddv.len() - j,
    {
        let row = &data[j];
        proof {
            assert(data@[j as int].deep_view() == ddv[j as int]);
        }
        let ghost wj0 = widths@;
        let mut k: usize = 0;
        while k < row.len()
            invariant
                k <= row@.len(),
                row.deep_view() == ddv[j as int],
                j < ddv.len(),
                ddv == data.deep_view(),
                ddv[j as int].len() <= widths@.len(),
                widths@.len() == wj0.len(),
                forall|x: int|
                    0 <= x < k ==> (#[trigger] widths@[x]) as int == imax(
                        wj0[x] as int,
                        trimmed(ddv[j as int][x]).len() as int,
                    ),
                forall|x: int| k <= x < widths@.len() ==> (#[trigger] widths@[x]) == wj0[x],
            decreases row@.len() - k,
        {
            let t = trim_str(row[k].as_str());
            let w = t.as_str().unicode_len();
            proof {
                assert(row@[k as int]@ == ddv[j as int][k as int]);
            }
            if w > widths[k] {
                widths.set(k, w);
            }
            k += 1;
        }
        proof {
            assert forall|x: int| 0 <= x < hdv.len() implies col_width(hdv, ddv, x) == imax(
                (#[trigger] widths@[x]) as int,
                max_cell(ddv, x, j as int + 1),
            ) by {
                let cw: int = if 0 <= x < ddv[j as int].len() {
                    trimmed(ddv[j as int][x]).len() as int
                } else {
                    0
                };
                assert(max_cell(ddv, x, j as int) == imax(cw, max_cell(ddv, x, j as int + 1)));
                if x < ddv[j as int].len() {
                    assert(widths@[x] as int == imax(wj0[x] as int, cw));
                } else {
                    assert(widths@[x] == wj0[x]);
                }
            }
        }
        j += 1;
    }
    proof {
        assert forall|x: int| 0 <= x < hdv.len() implies (#[trigger] widths@[x]) as int
            == col_width(hdv, ddv, x) by {
            assert(max_cell(ddv, x, j as int) == 0);
        }
        assert(int_widths(widths@) =~= table_widths(hdv, ddv));
    }
    let ghost ws = table_widths(hdv, ddv);
    let mut out = String::new();
    format_line(&mut out, &headers, &widths, false);
    proof {
        assert(Seq::<char>::empty() + render_line(hdv, ws, false) =~= render_line(hdv, ws, false));
    }
    let ghost b1 = out@;
    push_char(&mut out, '\n');
    proof {
        assert(out@ =~= b1 + seq!['\n']);
    }
    let ghost b2 = out@;
    push_char(&mut out, '|');
    proof {
        assert(out@ =~= b2 + seq!['|']);
    }
    let mut c: usize = 0;
    while c < widths.len()
        invariant
            c <= widths@.len(),
            ws == table_widths(hdv, ddv),
            int_widths(widths@) == ws,
            widths@.len() == ws.len(),
            out@ + render_sep_items(ws, c as int) == b2 + seq!['|'] + render_sep_items(ws, 0),
        decreases widths@.len() - c,
    {
        let ghost m0 = out@;
        push_char(&mut out, ' ');
        proof {
            assert(out@ =~= m0 + seq![' ']);
        }
        let mut d: usize = 0;
        let w = widths[c];
        proof {
            assert(ws[c as int] == widths@[c as int] as int);
        }
        while d < w
            invariant
                d <= w,
                out@ == m0 + seq![' '] + dashes(d as int),
            decreases w - d,
        {
            let ghost m1 = out@;
            push_char(&mut out, '-');
            proof {
                assert(dashes(d as int + 1) == dashes(d as int).push('-'));
                assert(out@ =~= m0 + seq![' '] + dashes(d as int + 1));
            }
            d += 1;
        }
        let ghost m2 = out@;
        push_char(&mut out, ' ');
        proof {
            assert(out@ =~= m2 + seq![' ']);
        }
        if c + 1 < widths.len() {
            let ghost m3 = out@;
            push_char(&mut out, '|');
            proof {
                assert(out@ =~= m3 + seq!['|']);
            }
        }
        proof {
            let sep: Seq<char> = if c + 1 < ws.len() {
                seq!['|']
            } else {
                Seq::<char>::empty()
            };
            assert(render_sep_items(ws, c as int) == seq![' '] + dashes(ws[c as int]) + seq![' ']
                + sep + render_sep_items(ws, c as int + 1));
            assert(out@ + render_sep_items(ws, c as int + 1) =~= m0 + render_sep_items(
                ws,
                c as int,
            ));
        }
        c += 1;
    }
    proof {
        assert(render_sep_items(ws, c as int) =~= Seq::<char>::empty());
        assert(out@ + Seq::<char>::empty() =~= out@);
    }
    let ghost b3 = out@;
    push_char(&mut out, '|');
    proof {
        assert(out@ =~= b3 + seq!['|']);
        assert(out@ =~= render_line(hdv, ws, false) + seq!['\n'] + (seq!['|'] + render_sep_items(
            ws,
            0,
        ) + seq!['|']));
    }
    let ghost b4 = out@;
    let mut j2: usize = 0;
    while j2 < data.len()
        invariant
            j2 <= ddv.len(),
            hdv == headers.deep_view(),
            ddv == data.deep_view(),
            ws == table_widths(hdv, ddv),
            int_widths(widths@) == ws,
            widths@.len() == hdv.len(),
            forall|x: int| 0 <= x < ddv.len() ==> (#[trigger] ddv[x]).len() <= hdv.len(),
            out@ + render_rows(ddv, ws, j2 as int) == b4 + render_rows(ddv, ws, 0),
            b4.len() > 0,
        decreases ddv.len() - j2,
    {
        let ghost m4 = out@;
        push_char(&mut out, '\n');
        proof {
            assert(out@ =~= m4 + seq!['\n']);
        }
        let ghost m5 = out@;
        format_line(&mut out, &data[j2], &widths, true);
        proof {
            assert(data@[j2 as int].deep_view() == ddv[j2 as int]);
            assert(render_rows(ddv, ws, j2 as int) == seq!['\n'] + render_line(
                ddv[j2 as int],
                ws,
                true,
            ) + render_rows(ddv, ws, j2 as int + 1));
            assert(out@ + render_rows(ddv, ws, j2 as int + 1) =~= m4 + render_rows(
                ddv,
                ws,
                j2 as int,
            ));
        }
        j2 += 1;
    }
    proof {
        assert(render_rows(ddv, ws, j2 as int) =~= Seq::<char>::empty());
        assert(out@ + Seq::<char>::empty() =~= out@);
        assert(out@ =~= render_table(hdv, ddv));
    }
    out
}

/// Renders a query result against a table's schema: the headers come
/// from the requested columns (`*` expands to all, each name resolves
/// to its column), and no data row may exceed the header count (every
/// row is checked; a shorter row simply leaves its missing columns
/// out of the width computation).
pub fn format_table_from_db(
    db: &Database,
    table_name: &str,
    columns: Vec<String>,
    data: Vec<Vec<String>>,
) -> (r: Result<String, DbError>)
    ensures
        match find_table(db@, table_name@) {
            None => r matches Err(e) && e@ == DbErrorV::TableNotFound(table_name@),
            Some(ti) => match resolve_cols(db@[ti].columns, columns.deep_view()) {
                Err(ev) => r matches Err(e) && e@ == ev,
                Ok(idxs) => if exists|y: int|
                    0 <= y < data@.len() && (#[trigger] data@[y])@.len() > idxs.len() {
                    r matches Err(e) && e@ == DbErrorV::ColumnCountMismatch
                } else {
                    r matches Ok(s) && s@ == render_table(
                        header_names(db@[ti].columns, idxs),
                        data.deep_view(),
                    )
                },
            },
        },
{
    let ti = match db.find_table_idx(table_name) {
        None => {
            return Err(DbError::TableNotFound(table_name.to_owned()));
        },
        Some(ti) => ti,
    };
    let t = &db.tables[ti];
    let ghost colsv = db@[ti as int].columns;
    let ghost req = columns.deep_view();
    proof {
        assert(t@ == db@[ti as int]);
    }
    let wild = if columns.len() == 1 {
        let c0 = columns[0].as_str();
        c0.unicode_len() == 1 && c0.get_char(0) == '*'
    } else {
        false
    };
    proof {
        if columns@.len() == 1 {
            assert(req[0] == columns@[0]@);
        }
        assert(wild == is_wildcard(req));
    }
    let mut headers: Vec<String> = Vec::new();
    if wild {
        let mut k: usize = 0;
        while k < t.columns.len()
            invariant
                k <= t.columns@.len(),
                t == &db.tables@[ti as int],
                ti < db@.len(),
                colsv == db@[ti as int].columns,
                headers@.len() == k,
                forall|x: int|
                    0 <= x < k ==> headers.deep_view()[x] == (#[trigger] colsv[x]).name,
            decreases t.columns@.len() - k,
        {
            let ghost hdv0 = headers.deep_view();
            headers.push(t.columns[k].name.clone());
            proof {
                assert(db.tables@[ti as int].columns@[k as int]@ == colsv[k as int]);
                assert(headers.deep_view() =~= hdv0.push(colsv[k as int].name));
            }
            k += 1;
        }
        proof {
            assert(resolve_cols(colsv, req) == Ok::<_, DbErrorV>(
                Seq::new(colsv.len(), |i: int| i),
            ));
            assert(headers.deep_view() =~= header_names(colsv, Seq::new(colsv.len(), |i: int| i)));
        }
    } else {
        let mut j: usize = 0;
        let ghost mut iseq: Seq<int> = Seq::empty();
        proof {
            assert(cols_compose(iseq, resolve_cols_from(colsv, req, 0)) == resolve_cols_from(
                colsv,
                req,
                0,
            )) by {
                if resolve_cols_from(colsv, req, 0) is Ok {
                    assert(iseq + resolve_cols_from(colsv, req, 0)->Ok_0 =~= resolve_cols_from(
                        colsv,
                        req,
                        0,
                    )->Ok_0);
                }
            }
        }
        while j < columns.len()
            invariant
                j <= req.len(),
                req == columns.deep_view(),
                ti < db@.len(),
                colsv == db@[ti as int].columns,
                t == &db.tables@[ti as int],
                find_table(db@, table_name@) == Some(ti as int),
                !is_wildcard(req),
                headers@.len() == j,
                iseq.len() == j,
                forall|x: int| 0 <= x < j ==> 0 <= #[trigger] iseq[x] < colsv.len(),
                forall|x: int|
                    0 <= x < j ==> headers.deep_view()[x] == colsv[#[trigger] iseq[x]].name,
                resolve_cols_from(colsv, req, 0) == cols_compose(
                    iseq,
                    resolve_cols_from(colsv, req, j as int),
                ),
            decreases req.len() - j,
        {
            proof {
                assert(req[j as int] == columns@[j as int]@);
            }
            match crate::model::find_col(&t.columns, columns[j].as_str()) {
                None => {
                    proof {
                        assert(db.tables@[ti as int].columns.deep_view() == colsv);
                        assert(resolve_cols_from(colsv, req, j as int) == Err::<Seq<int>, _>(
                            DbErrorV::ColumnNotFound(req[j as int]),
                        ));
                    }
                    return Err(DbError::ColumnNotFound(columns[j].clone()));
                },
                Some(ci) => {
                    let ghost hdv0 = headers.deep_view();
                    headers.push(t.columns[ci].name.clone());
                    proof {
                        assert(db.tables@[ti as int].columns.deep_view() == colsv);
                        assert(db.tables@[ti as int].columns@[ci as int]@ == colsv[ci as int]);
                        assert(headers.deep_view() =~= hdv0.push(colsv[ci as int].name));
                        assert(crate::model::col_index(colsv, req[j as int]) == Some(ci as int));
                        let rest = resolve_cols_from(colsv, req, j + 1);
                        let iseq0 = iseq;
                        iseq = iseq.push(ci as int);
                        assert(resolve_cols_from(colsv, req, j as int) == (match rest {
                            Ok(r0) => Ok::<Seq<int>, DbErrorV>(seq![ci as int] + r0),
                            Err(e) => Err(e),
                        }));
                        if rest is Ok {
                            assert(iseq0 + (seq![ci as int] + rest->Ok_0) =~= iseq + rest->Ok_0);
                        }
                        assert(cols_compose(iseq0, resolve_cols_from(colsv, req, j as int))
                            == cols_compose(iseq, rest));
                    }
                },
            }
            j += 1;
        }
        proof {
            assert(resolve_cols_from(colsv, req, j as int) == Ok::<_, DbErrorV>(
                Seq::<int>::empty(),
            ));
            assert(iseq + Seq::<int>::empty() =~= iseq);
            assert(resolve_cols(colsv, req) == Ok::<_, DbErrorV>(iseq));
            assert(headers.deep_view() =~= header_names(colsv, iseq));
        }
    }
    proof {
        assert(resolve_cols(colsv, req) is Ok);
        assert(headers.deep_view() == header_names(colsv, resolve_cols(colsv, req)->Ok_0));
        assert(headers@.len() == resolve_cols(colsv, req)->Ok_0.len());
    }
    let mut x: usize = 0;
    while x < data.len()
        invariant
            x <= data@.len(),
            ti < db@.len(),
            colsv == db@[ti as int].columns,
            req == columns.deep_view(),
            find_table(db@, table_name@) == Some(ti as int),
            resolve_cols(colsv, req) is Ok,
            headers@.len() == resolve_cols(colsv, req)->Ok_0.len(),
            headers.deep_view() == header_names(colsv, resolve_cols(colsv, req)->Ok_0),
            forall|y: int| 0 <= y < x ==> (#[trigger] data@[y])@.len() <= headers@.len(),
        decreases data@.len() - x,
    {
        if data[x].len() > headers.len() {
            proof {
                assert(data@[x as int]@.len() > resolve_cols(colsv, req)->Ok_0.len());
            }
            return Err(DbError::ColumnCountMismatch);
        }
        x += 1;
    }
    Ok(format_table(headers, data))
}

} // verus!
