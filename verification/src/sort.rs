//! Multi-key ordered sort for query results. Rows are carried as
//! (original index, row) pairs; the order compares successive keys
//! (numeric for `Int` columns, character-lexicographic for `Varchar`),
//! reverses each descending key's own comparison only, and breaks full
//! ties by the original index. That tiebreak makes the order strict and
//! total over distinct indices, so the sorted sequence is unique — which
//! is exactly stability.

use vstd::prelude::*;
use vstd::string::*;

use crate::model::DataType;
use crate::values::{numeric_value, to_i32_or_0};

verus! {

/// A resolved sort key: a column position, that column's type, and the
/// direction.
#[derive(Clone, Copy, Debug)]
pub struct SortKey {
    pub col: usize,
    pub data_type: DataType,
    pub desc: bool,
}

/// The mathematical reading of a sort key.
pub ghost struct SortKeyV {
    pub col: int,
    pub data_type: DataType,
    pub desc: bool,
}

impl View for SortKey {
    type V = SortKeyV;

    open spec fn view(&self) -> SortKeyV {
        SortKeyV { col: self.col as int, data_type: self.data_type, desc: self.desc }
    }
}

impl DeepView for SortKey {
    type V = SortKeyV;

    open spec fn deep_view(&self) -> SortKeyV {
        self.view()
    }
}

/// One filtered row, tagged with its position in the stored data.
#[derive(Debug)]
pub struct SelPair {
    pub idx: usize,
    pub row: Vec<String>,
}

/// The mathematical reading of a tagged row.
pub ghost struct SelPairV {
    pub idx: int,
    pub row: Seq<Seq<char>>,
}

impl View for SelPair {
    type V = SelPairV;

    open spec fn view(&self) -> SelPairV {
        SelPairV { idx: self.idx as int, row: self.row.deep_view() }
    }
}

impl DeepView for SelPair {
    type V = SelPairV;

    open spec fn deep_view(&self) -> SelPairV {
        self.view()
    }
}

/// Character-lexicographic three-way comparison: -1, 0 or 1.
pub open spec fn lex_cmp_chars(a: Seq<char>, b: Seq<char>) -> int
    decreases a.len(),
{
    if a.len() == 0 && b.len() == 0 {
        0
    } else if a.len() == 0 {
        -1
    } else if b.len() == 0 {
        1
    } else if a[0] < b[0] {
        -1
    } else if b[0] < a[0] {
        1
    } else {
        lex_cmp_chars(a.drop_first(), b.drop_first())
    }
}

/// Type-aware three-way comparison of two cells: numeric for `Int`
/// (cells that do not parse count as 0), lexicographic for `Varchar`.
pub open spec fn base_cmp(dt: DataType, x: Seq<char>, y: Seq<char>) -> int {
    match dt {
        DataType::Int(_) => if numeric_value(x) < numeric_value(y) {
            -1
        } else if numeric_value(y) < numeric_value(x) {
            1
        } else {
            0
        },
        DataType::Varchar(_) => lex_cmp_chars(x, y),
    }
}

/// One key's three-way comparison of two rows, reversed when the key is
/// descending.
pub open spec fn key_cmp(k: SortKeyV, x: Seq<Seq<char>>, y: Seq<Seq<char>>) -> int {
    let c = base_cmp(k.data_type, x[k.col], y[k.col]);
    if k.desc {
        -c
    } else {
        c
    }
}

/// The multi-key three-way comparison: the first key whose comparison
/// is non-zero decides.
pub open spec fn rows_cmp(keys: Seq<SortKeyV>, x: Seq<Seq<char>>, y: Seq<Seq<char>>) -> int
    decreases keys.len(),
{
    if keys.len() == 0 {
        0
    } else {
        let c = key_cmp(keys[0], x, y);
        if c != 0 {
            c
        } else {
            rows_cmp(keys.drop_first(), x, y)
        }
    }
}

/// The strict total order the sort produces: by the keys, with full
/// ties broken by original position (stability).
pub open spec fn pair_lt(keys: Seq<SortKeyV>, a: SelPairV, b: SelPairV) -> bool {
    rows_cmp(keys, a.row, b.row) < 0 || (rows_cmp(keys, a.row, b.row) == 0 && a.idx < b.idx)
}

/// Inserts a pair into an already sorted sequence, after every element
/// that precedes it in the order.
pub open spec fn insert_sorted(keys: Seq<SortKeyV>, p: SelPairV, s: Seq<SelPairV>) -> Seq<SelPairV>
    decreases s.len(),
{
    if s.len() == 0 {
        seq![p]
    } else if pair_lt(keys, s[0], p) {
        seq![s[0]] + insert_sorted(keys, p, s.drop_first())
    } else {
        seq![p] + s
    }
}

/// Insertion sort of tagged rows under the multi-key order.
pub open spec fn sort_pairs(keys: Seq<SortKeyV>, s: Seq<SelPairV>) -> Seq<SelPairV>
    decreases s.len(),
{
    if s.len() == 0 {
        Seq::empty()
    } else {
        insert_sorted(keys, s[0], sort_pairs(keys, s.drop_first()))
    }
}

/// Every key's column lies within a row of `ncols` cells.
pub open spec fn keys_wf(keys: Seq<SortKeyV>, ncols: int) -> bool {
    forall|k: int| 0 <= k < keys.len() ==> 0 <= (#[trigger] keys[k]).col < ncols
}

/// Character-lexicographic comparison of two strings.
fn lex_cmp_exec(a: &str, b: &str) -> (r: i32)
    ensures
        r as int == lex_cmp_chars(a@, b@),
        -1 <= r <= 1,
{
    let na = a.unicode_len();
    let nb = b.unicode_len();
    let mut i: usize = 0;
    proof {
        assert(a@.skip(0) =~= a@);
        assert(b@.skip(0) =~= b@);
    }
    while i < na && i < nb
        invariant
            i <= na,
            i <= nb,
            na == a@.len(),
            nb == b@.len(),
            lex_cmp_chars(a@, b@) == lex_cmp_chars(a@.skip(i as int), b@.skip(i as int)),
        decreases na - i,
    {
        let ca = a.get_char(i);
        let cb = b.get_char(i);
        proof {
            assert(a@.skip(i as int)[0] == a@[i as int]);
            assert(b@.skip(i as int)[0] == b@[i as int]);
            assert(a@.skip(i as int).drop_first() =~= a@.skip(i as int + 1));
            assert(b@.skip(i as int).drop_first() =~= b@.skip(i as int + 1));
        }
        if ca < cb {
            return -1;
        }
        if cb < ca {
            return 1;
        }
        i += 1;
    }
    proof {
        if i == na {
            assert(a@.skip(i as int) =~= Seq::<char>::empty());
        }
        if i == nb {
            assert(b@.skip(i as int) =~= Seq::<char>::empty());
        }
    }
    if na == nb {
        0
    } else if na < nb {
        -1
    } else {
        1
    }
}

/// The multi-key three-way comparison of two tagged rows.
fn rows_cmp_exec(keys: &Vec<SortKey>, x: &Vec<String>, y: &Vec<String>) -> (r: i32)
    requires
        keys_wf(keys.deep_view(), x.deep_view().len() as int),
        x.deep_view().len() == y.deep_view().len(),
    ensures
        r as int == rows_cmp(keys.deep_view(), x.deep_view(), y.deep_view()),
{
    let ghost keysv = keys.deep_view();
    let ghost xv = x.deep_view();
    let ghost yv = y.deep_view();
    let mut k: usize = 0;
    proof {
        assert(keysv.skip(0) =~= keysv);
    }
    while k < keys.len()
        invariant
            k <= keysv.len(),
            keysv == keys.deep_view(),
            xv == x.deep_view(),
            yv == y.deep_view(),
            keys_wf(keysv, xv.len() as int),
            xv.len() == yv.len(),
            rows_cmp(keysv, xv, yv) == rows_cmp(keysv.skip(k as int), xv, yv),
        decreases keysv.len() - k,
    {
        let key = &keys[k];
        proof {
            assert(keysv.skip(k as int)[0] == keysv[k as int]);
            assert(keysv[k as int] == key@);
            assert(keysv.skip(k as int).drop_first() =~= keysv.skip(k as int + 1));
            assert(xv[key.col as int] == x@[key.col as int]@);
            assert(yv[key.col as int] == y@[key.col as int]@);
        }
        let c: i32 = match key.data_type {
            DataType::Int(_) => {
                let va = to_i32_or_0(x[key.col].as_str());
                let vb = to_i32_or_0(y[key.col].as_str());
                if va < vb {
                    -1
                } else if vb < va {
                    1
                } else {
                    0
                }
            },
            DataType::Varchar(_) => lex_cmp_exec(x[key.col].as_str(), y[key.col].as_str()),
        };
        let c = if key.desc {
            -c
        } else {
            c
        };
        if c != 0 {
            proof {
                assert(c as int == key_cmp(keysv[k as int], xv, yv));
            }
            return c;
        }
        k += 1;
    }
    proof {
        assert(keysv.skip(k as int) =~= Seq::<SortKeyV>::empty());
    }
    0
}

proof fn lemma_insert_sorted_at(keys: Seq<SortKeyV>, p: SelPairV, s: Seq<SelPairV>, j: int)
    requires
        0 <= j <= s.len(),
        forall|m: int| 0 <= m < j ==> pair_lt(keys, #[trigger] s[m], p),
        j < s.len() ==> !pair_lt(keys, s[j], p),
    ensures
        insert_sorted(keys, p, s) == s.insert(j, p),
    decreases j,
{
    if s.len() == 0 {
        assert(insert_sorted(keys, p, s) =~= s.insert(0, p));
    } else if j == 0 {
        assert(insert_sorted(keys, p, s) =~= s.insert(0, p));
    } else {
        assert(pair_lt(keys, s[0], p));
        lemma_insert_sorted_at(keys, p, s.drop_first(), j - 1);
        assert(seq![s[0]] + s.drop_first().insert(j - 1, p) =~= s.insert(j, p));
    }
}

/// Sorts tagged rows by the given keys; the result is the unique
/// permutation sorted under the strict key-then-index order.
pub fn sort_rows(keys: &Vec<SortKey>, pairs: Vec<SelPair>, Ghost(ncols): Ghost<int>) -> (r: Vec<
    SelPair,
>)
    requires
        keys_wf(keys.deep_view(), ncols),
        forall|k: int|
            0 <= k < pairs.deep_view().len() ==> (#[trigger] pairs.deep_view()[k]).row.len()
                == ncols,
    ensures
        r.deep_view() == sort_pairs(keys.deep_view(), pairs.deep_view()),
        forall|k: int|
            0 <= k < r.deep_view().len() ==> (#[trigger] r.deep_view()[k]).row.len() == ncols,
{
    let ghost keysv = keys.deep_view();
    let ghost pairs0 = pairs.deep_view();
    let mut src = pairs;
    let mut out: Vec<SelPair> = Vec::new();
    proof {
        assert(pairs0.skip(pairs0.len() as int) =~= Seq::<SelPairV>::empty());
    }
    while src.len() > 0
        invariant
            keysv == keys.deep_view(),
            src@.len() <= pairs0.len(),
            forall|k: int| 0 <= k < src@.len() ==> src.deep_view()[k] == pairs0[k],
            out.deep_view() == sort_pairs(keysv, pairs0.skip(src@.len() as int)),
            forall|k: int| 0 <= k < pairs0.len() ==> (#[trigger] pairs0[k]).row.len() == ncols,
            forall|k: int|
                0 <= k < out.deep_view().len() ==> (#[trigger] out.deep_view()[k]).row.len()
                    == ncols,
            keys_wf(keysv, ncols),
        decreases src@.len(),
    {
        let ghost m = src@.len();
        let ghost sdv0 = src.deep_view();
        let p = src.pop().unwrap();
        proof {
            assert(p.deep_view() == sdv0[m - 1]);
            assert(p@ == pairs0[m - 1]);
            assert(src.deep_view() =~= sdv0.drop_last());
            assert(pairs0.skip(m - 1)[0] == pairs0[m - 1]);
            assert(pairs0.skip(m - 1).drop_first() =~= pairs0.skip(m as int));
        }
        let ghost outv0 = out.deep_view();
        let mut j: usize = 0;
        let mut stop = out.len();
        while j < out.len()
            invariant
                j <= out@.len(),
                keysv == keys.deep_view(),
                outv0 == out.deep_view(),
                keys_wf(keysv, ncols),
                p@.row.len() == ncols,
                forall|k: int|
                    0 <= k < out.deep_view().len() ==> (#[trigger] out.deep_view()[k]).row.len()
                        == ncols,
                stop == out@.len() || (stop < j && !pair_lt(keysv, outv0[stop as int], p@)),
                forall|m2: int|
                    0 <= m2 < j && m2 < stop ==> pair_lt(keysv, #[trigger] outv0[m2], p@),
            decreases out@.len() - j,
        {
            if stop == out.len() {
                proof {
                    assert(out.deep_view()[j as int] == out@[j as int]@);
                }
                let c = rows_cmp_exec(keys, &out[j].row, &p.row);
                let before = c < 0 || (c == 0 && out[j].idx < p.idx);
                if !before {
                    stop = j;
                    proof {
                        assert(!pair_lt(keysv, outv0[j as int], p@));
                    }
                }
            }
            j += 1;
        }
        proof {
            lemma_insert_sorted_at(keysv, p@, outv0, stop as int);
        }
        out.insert(stop, p);
        proof {
            assert(out.deep_view() =~= outv0.insert(stop as int, p@));
            assert(out.deep_view() == insert_sorted(keysv, p@, outv0));
        }
    }
    proof {
        assert(pairs0.skip(0) =~= pairs0);
    }
    out
}

} // verus!
