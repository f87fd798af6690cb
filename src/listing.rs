//! Listing an environment's variables: values cut to a length, and the
//! orders in which they can be shown.
use vstd::prelude::*;
use vstd::string::StrSliceExecFns;
use crate::store::{rows_view, EnvironmentRow, RowView, Truncate};
use crate::text::{lemma_lex_irreflexive, lemma_lex_total, lemma_lex_transitive, lex_lt, str_lt};

verus! {

/// The orders in which an environment's variables can be listed.
#[derive(Debug, Clone, Copy, PartialEq, Eq)]
pub enum Sort {
    Key,
    Value,
    Date,
    KeyDesc,
    ValueDesc,
    DateDesc,
}

/// The short code of each order.
pub open spec fn sort_code(s: Sort) -> Seq<char> {
    match s {
        Sort::Date => seq!['d'],
        Sort::DateDesc => seq!['d', 'd'],
        Sort::Key => seq!['k'],
        Sort::KeyDesc => seq!['k', 'd'],
        Sort::Value => seq!['v'],
        Sort::ValueDesc => seq!['v', 'd'],
    }
}

/// The order a code names; anything unrecognized means oldest first.
pub open spec fn sort_of_code(c: Seq<char>) -> Sort {
    if c == seq!['k'] {
        Sort::Key
    } else if c == seq!['k', 'd'] {
        Sort::KeyDesc
    } else if c == seq!['v'] {
        Sort::Value
    } else if c == seq!['v', 'd'] {
        Sort::ValueDesc
    } else if c == seq!['d', 'd'] {
        Sort::DateDesc
    } else {
        Sort::Date
    }
}

impl Sort {
    /// The short code of the order.
    pub fn to_str(&self) -> (r: &'static str)
        ensures
            r@ == sort_code(*self),
    {
        proof {
            reveal_strlit("d");
            reveal_strlit("dd");
            reveal_strlit("k");
            reveal_strlit("kd");
            reveal_strlit("v");
            reveal_strlit("vd");
        }
        match self {
            Sort::Date => "d",
            Sort::DateDesc => "dd",
            Sort::Key => "k",
            Sort::KeyDesc => "kd",
            Sort::Value => "v",
            Sort::ValueDesc => "vd",
        }
    }

    /// The order that a code names; unrecognized codes fall back to oldest first.
    pub fn from_code(code: &str) -> (r: Sort)
        ensures
            r == sort_of_code(code@),
    {
        let n = code.unicode_len();
        if n == 1 {
            let c = code.get_char(0);
            proof {
                assert(code@ =~= seq![c]);
            }
            if c == 'k' {
                Sort::Key
            } else if c == 'v' {
                Sort::Value
            } else {
                Sort::Date
            }
        } else if n == 2 {
            let a = code.get_char(0);
            let b = code.get_char(1);
            proof {
                assert(code@ =~= seq![a, b]);
            }
            if b != 'd' {
                Sort::Date
            } else if a == 'k' {
                Sort::KeyDesc
            } else if a == 'v' {
                Sort::ValueDesc
            } else if a == 'd' {
                Sort::DateDesc
            } else {
                Sort::Date
            }
        } else {
            proof {
                assert(code@.len() != 1 && code@.len() != 2);
                assert(code@ != seq!['k']);
                assert(code@ != seq!['k', 'd']);
                assert(code@ != seq!['v']);
                assert(code@ != seq!['v', 'd']);
                assert(code@ != seq!['d', 'd']);
            }
            Sort::Date
        }
    }
}

/// A value cut to at most `m` characters.
pub open spec fn cut(v: Seq<char>, t: Truncate) -> Seq<char> {
    match t {
        Truncate::Whole => v,
        Truncate::Max(m) => if v.len() > m { v.take(m as int) } else { v },
    }
}

pub open spec fn truncated(rows: Seq<RowView>, t: Truncate) -> Seq<RowView> {
    rows.map_values(|r: RowView| (r.0, r.1, cut(r.2, t)))
}

pub fn truncate_rows(rows: &Vec<EnvironmentRow>, t: Truncate) -> (r: Vec<EnvironmentRow>)
    ensures
        rows_view(r@) == truncated(rows_view(rows@), t),
{
    let mut out: Vec<EnvironmentRow> = Vec::new();
    let mut i: usize = 0;
    while i < rows.len()
        invariant
            0 <= i <= rows@.len(),
            rows_view(out@) == truncated(rows_view(rows@.take(i as int)), t),
        decreases rows@.len() - i,
    {
        let row = &rows[i];
        let value = match t {
            Truncate::Whole => row.value.clone(),
            Truncate::Max(m) => {
                let n = row.value.as_str().unicode_len();
                if n > m as usize {
                    row.value.as_str().substring_char(0, m as usize).to_owned()
                } else {
                    row.value.clone()
                }
            },
        };
        let ghost cv = value@;
        assert(cv == cut(row.value@, t));
        let ghost before = rows_view(out@);
        out.push(EnvironmentRow { env: row.env.clone(), key: row.key.clone(), value });
        proof {
            assert(rows@.take(i + 1) =~= rows@.take(i as int).push(rows@[i as int]));
            assert(rows_view(rows@.take(i + 1)) =~= rows_view(rows@.take(i as int)).push(row@));
            assert(truncated(rows_view(rows@.take(i + 1)), t) =~= truncated(rows_view(rows@.take(i as int)), t).push((row.env@, row.key@, cv)));
            assert(rows_view(out@) =~= before.push((row.env@, row.key@, cv)));
            assert(rows_view(out@) =~= truncated(rows_view(rows@.take(i + 1)), t));
        }
        i = i + 1;
    }
    assert(rows@.take(i as int) =~= rows@);
    out
}

pub open spec fn lex_le(a: Seq<char>, b: Seq<char>) -> bool {
    !lex_lt(b, a)
}

/// Row `a` may stand before row `b` in the order `sort` names.
pub open spec fn row_le(a: RowView, b: RowView, sort: Sort) -> bool {
    match sort {
        Sort::Key => lex_le(a.1, b.1),
        Sort::KeyDesc => lex_le(b.1, a.1),
        Sort::Value => lex_le(a.2, b.2),
        Sort::ValueDesc => lex_le(b.2, a.2),
        Sort::Date | Sort::DateDesc => true,
    }
}

pub open spec fn rows_sorted(s: Seq<RowView>, sort: Sort) -> bool {
    forall|p: int, q: int| 0 <= p < q < s.len() ==> row_le(s[p], s[q], sort)
}

/// `r` lists the rows of `base` in the order `sort` names: by key or value,
/// ascending or descending (the same rows, each as often), or as `base`
/// stands (oldest first) or reversed.
pub open spec fn listed_in_order(r: Seq<RowView>, base: Seq<RowView>, sort: Sort) -> bool {
    match sort {
        Sort::Date => r == base,
        Sort::DateDesc => r.len() == base.len() && forall|i: int| 0 <= i < r.len() ==> r[i] == base[base.len() - 1 - i],
        _ => r.len() == base.len() && rows_sorted(r, sort) && r.to_multiset() == base.to_multiset(),
    }
}

proof fn lemma_lex_le_total(a: Seq<char>, b: Seq<char>)
    ensures
        lex_le(a, b) || lex_le(b, a),
{
    if lex_lt(a, b) && lex_lt(b, a) {
        lemma_lex_transitive(a, b, a);
        lemma_lex_irreflexive(a);
    }
}

proof fn lemma_lex_le_transitive(a: Seq<char>, b: Seq<char>, c: Seq<char>)
    requires
        lex_le(a, b),
        lex_le(b, c),
    ensures
        lex_le(a, c),
{
    if lex_lt(c, a) {
        if b == c {
        } else {
            lemma_lex_total(b, c);
            if lex_lt(b, c) {
                lemma_lex_transitive(b, c, a);
            }
        }
    }
}

proof fn lemma_row_le(a: RowView, b: RowView, c: RowView, sort: Sort)
    ensures
        row_le(a, b, sort) || row_le(b, a, sort),
        row_le(a, b, sort) && row_le(b, c, sort) ==> row_le(a, c, sort),
{
    lemma_lex_le_total(a.1, b.1);
    lemma_lex_le_total(a.2, b.2);
    if row_le(a, b, sort) && row_le(b, c, sort) {
        match sort {
            Sort::Key => lemma_lex_le_transitive(a.1, b.1, c.1),
            Sort::KeyDesc => lemma_lex_le_transitive(c.1, b.1, a.1),
            Sort::Value => lemma_lex_le_transitive(a.2, b.2, c.2),
            Sort::ValueDesc => lemma_lex_le_transitive(c.2, b.2, a.2),
            _ => {},
        }
    }
}

fn row_le_exec(a: &EnvironmentRow, b: &EnvironmentRow, sort: Sort) -> (r: bool)
    ensures
        r == row_le(a@, b@, sort),
{
    match sort {
        Sort::Key => !str_lt(b.key.as_str(), a.key.as_str()),
        Sort::KeyDesc => !str_lt(a.key.as_str(), b.key.as_str()),
        Sort::Value => !str_lt(b.value.as_str(), a.value.as_str()),
        Sort::ValueDesc => !str_lt(a.value.as_str(), b.value.as_str()),
        Sort::Date | Sort::DateDesc => true,
    }
}

fn copy_row(r: &EnvironmentRow) -> (c: EnvironmentRow)
    ensures
        c@ == r@,
{
    EnvironmentRow { env: r.env.clone(), key: r.key.clone(), value: r.value.clone() }
}

/// The rows in the order `sort` names.
pub fn sort_rows(rows: &Vec<EnvironmentRow>, sort: Sort) -> (r: Vec<EnvironmentRow>)
    ensures
        listed_in_order(rows_view(r@), rows_view(rows@), sort),
{
    let ghost base = rows_view(rows@);
    let mut out: Vec<EnvironmentRow> = Vec::new();
    match sort {
        Sort::Date => {
            let mut i: usize = 0;
            while i < rows.len()
                invariant
                    0 <= i <= rows@.len(),
                    base == rows_view(rows@),
                    rows_view(out@) == base.take(i as int),
                decreases rows@.len() - i,
            {
                assert(base[i as int] == rows@[i as int]@);
                let ghost before = rows_view(out@);
                let c = copy_row(&rows[i]);
                out.push(c);
                assert(rows_view(out@) =~= before.push(base[i as int]));
                assert(base.take(i + 1) =~= base.take(i as int).push(base[i as int]));
                i = i + 1;
            }
            assert(base.take(i as int) =~= base);
        },
        Sort::DateDesc => {
            let mut i: usize = rows.len();
            while i > 0
                invariant
                    i <= rows@.len(),
                    base == rows_view(rows@),
                    out@.len() == rows@.len() - i,
                    forall|j: int| 0 <= j < out@.len() ==> #[trigger] rows_view(out@)[j] == base[base.len() - 1 - j],
                decreases i,
            {
                assert(base[i - 1] == rows@[i - 1]@);
                let ghost before = rows_view(out@);
                let c = copy_row(&rows[i - 1]);
                out.push(c);
                proof {
                    assert(rows_view(out@) =~= before.push(base[i - 1]));
                    assert forall|j: int| 0 <= j < out@.len() implies #[trigger] rows_view(out@)[j] == base[base.len() - 1 - j] by {
                        if j < before.len() {
                            assert(rows_view(out@)[j] == before[j]);
                        }
                    }
                }
                i = i - 1;
            }
        },
        _ => {
            let mut i: usize = 0;
            assert(rows_view(out@) =~= base.take(0));
            while i < rows.len()
                invariant
                    0 <= i <= rows@.len(),
                    base == rows_view(rows@),
                    sort != Sort::Date && sort != Sort::DateDesc,
                    out@.len() == i,
                    rows_sorted(rows_view(out@), sort),
                    rows_view(out@).to_multiset() == base.take(i as int).to_multiset(),
                decreases rows@.len() - i,
            {
                let x = &rows[i];
                let ghost ov = rows_view(out@);
                let mut p: usize = 0;
                while p < out.len() && row_le_exec(&out[p], x, sort)
                    invariant
                        0 <= p <= out@.len(),
                        ov == rows_view(out@),
                        forall|a: int| 0 <= a < p ==> row_le(#[trigger] ov[a], x@, sort),
                        ov.to_multiset() == base.take(i as int).to_multiset(),
                    decreases out@.len() - p,
                {
                    p = p + 1;
                }
                out.insert(p, copy_row(x));
                proof {
                    let nv = rows_view(out@);
                    assert(nv =~= ov.insert(p as int, x@));
                    if p < ov.len() {
                        lemma_row_le(ov[p as int], x@, x@, sort);
                    }
                    assert forall|a: int, b: int| 0 <= a < b < nv.len() implies row_le(nv[a], nv[b], sort) by {
                        if b < p {
                        } else if b == p {
                        } else if a < p {
                            assert(nv[b] == ov[b - 1]);
                            if b - 1 > p {
                                lemma_row_le(x@, ov[p as int], ov[b - 1], sort);
                            }
                            lemma_row_le(ov[a], x@, ov[b - 1], sort);
                        } else if a == p {
                            assert(nv[b] == ov[b - 1]);
                            if b - 1 > p {
                                lemma_row_le(x@, ov[p as int], ov[b - 1], sort);
                            }
                        } else {
                            assert(nv[a] == ov[a - 1]);
                            assert(nv[b] == ov[b - 1]);
                        }
                    }
                    let nb = base.take(i + 1);
                    let pb = base.take(i as int);
                    assert(nb =~= pb.push(x@));
                    vstd::seq_lib::to_multiset_insert(ov, p as int, x@);
                    vstd::seq_lib::to_multiset_build(pb, x@);
                }
                i = i + 1;
            }
            assert(base.take(i as int) =~= base);
        },
    }
    out
}

} // verus!
