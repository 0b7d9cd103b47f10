//! The cleaner.
//!
//! Cleaning drops every row in which a required column holds a null, keeping
//! the surviving rows in order, and then reinterprets the named columns under
//! their target types, value by value and non-strictly: an unparseable value
//! becomes null, and no coercion ever removes a row.  Cleaning fails only
//! when a configured column name — required or coercion target — is absent
//! from the table's schema.

use vstd::prelude::*;
use crate::coerce::{spec_coerce_cell, coerce_cell, lemma_coerce_matches};
use crate::error::SchemaError;
use crate::parse::views_of;
use crate::table::{CellValue, CellView, Column, ColumnType, ColumnView, Table, TableView,
    cell_matches, chars_eq, copy_cell, copy_chars, is_null};

verus! {

/// One coercion entry: the column of the given name is reinterpreted under
/// the target type.
pub struct Coercion {
    pub column: Vec<char>,
    pub target: ColumnType,
}

impl View for Coercion {
    type V = (Seq<char>, ColumnType);

    open spec fn view(&self) -> (Seq<char>, ColumnType) {
        (self.column@, self.target)
    }
}

/// The mathematical values of a sequence of coercion entries.
pub open spec fn coercions_view(v: Seq<Coercion>) -> Seq<(Seq<char>, ColumnType)> {
    v.map_values(|c: Coercion| c@)
}

/// The index of the column of the given name.
pub open spec fn col_index_of(t: TableView, name: Seq<char>) -> int {
    choose|j: int| 0 <= j < t.cols.len() && t.cols[j].name == name
}

/// Every name names a column of the table.
pub open spec fn names_present(t: TableView, names: Seq<Seq<char>>) -> bool {
    forall|i: int| 0 <= i < names.len() ==> t.has_col(#[trigger] names[i])
}

/// Row `i` holds a present value in every one of the given columns.
pub open spec fn row_present_at(t: TableView, idxs: Seq<int>, i: int) -> bool {
    forall|r: int| 0 <= r < idxs.len() ==> !((#[trigger] t.cols[idxs[r]].cells[i]) is Null)
}

/// The indices below `n` of the rows that hold a present value in every
/// required column, in order.
pub open spec fn kept_up_to(t: TableView, idxs: Seq<int>, n: int) -> Seq<int>
    decreases n,
{
    if n <= 0 {
        Seq::empty()
    } else {
        let p = kept_up_to(t, idxs, n - 1);
        if row_present_at(t, idxs, n - 1) {
            p.push(n - 1)
        } else {
            p
        }
    }
}

/// What the kept-row indices satisfy: they are the rows below `n`, in order,
/// on which every required column is present, and no other row.
pub proof fn lemma_kept_up_to_props(t: TableView, idxs: Seq<int>, n: int)
    requires
        n >= 0,
    ensures
        kept_up_to(t, idxs, n).len() <= n,
        forall|k: int|
            0 <= k < kept_up_to(t, idxs, n).len() ==> 0 <= #[trigger] kept_up_to(t, idxs, n)[k]
                < n,
        forall|k: int|
            0 <= k < kept_up_to(t, idxs, n).len() ==> row_present_at(
                t,
                idxs,
                #[trigger] kept_up_to(t, idxs, n)[k],
            ),
        forall|i: int|
            0 <= i < n && row_present_at(t, idxs, i) ==> kept_up_to(t, idxs, n).contains(i),
        forall|k1: int, k2: int|
            0 <= k1 < k2 < kept_up_to(t, idxs, n).len() ==> kept_up_to(t, idxs, n)[k1]
                < kept_up_to(t, idxs, n)[k2],
    decreases n,
{
    if n > 0 {
        lemma_kept_up_to_props(t, idxs, n - 1);
        let p = kept_up_to(t, idxs, n - 1);
        let e = kept_up_to(t, idxs, n);
        assert forall|i: int|
            0 <= i < n && row_present_at(t, idxs, i) implies e.contains(i) by {
            if i < n - 1 {
                assert(p.contains(i));
                let k = choose|k: int| 0 <= k < p.len() && p[k] == i;
                assert(e[k] == i);
            } else {
                assert(e.last() == i);
            }
        }
    }
}

/// The table narrowed to the kept rows: every column keeps its name and type.
pub open spec fn filter_table(t: TableView, idxs: Seq<int>) -> TableView {
    let keep = kept_up_to(t, idxs, t.rows());
    TableView {
        cols: t.cols.map_values(
            |c: ColumnView|
                ColumnView {
                    name: c.name,
                    ctype: c.ctype,
                    cells: keep.map_values(|i: int| c.cells[i]),
                },
        ),
    }
}

/// The column reinterpreted under the target type, value by value.
pub open spec fn coerce_col(c: ColumnView, target: ColumnType) -> ColumnView {
    ColumnView {
        name: c.name,
        ctype: target,
        cells: c.cells.map_values(|v: CellView| spec_coerce_cell(v, target)),
    }
}

/// One coercion entry applied: the column of that name is reinterpreted.
pub open spec fn apply_one(t: TableView, name: Seq<char>, target: ColumnType) -> TableView {
    TableView {
        cols: t.cols.map_values(
            |c: ColumnView|
                if c.name == name {
                    coerce_col(c, target)
                } else {
                    c
                },
        ),
    }
}

/// The coercion entries applied in order.
pub open spec fn apply_coercions(t: TableView, cs: Seq<(Seq<char>, ColumnType)>) -> TableView
    decreases cs.len(),
{
    if cs.len() == 0 {
        t
    } else {
        apply_coercions(apply_one(t, cs[0].0, cs[0].1), cs.skip(1))
    }
}

/// Applying one more coercion entry at the end.
proof fn lemma_apply_snoc(t: TableView, cs: Seq<(Seq<char>, ColumnType)>, x: (Seq<char>, ColumnType))
    ensures
        apply_coercions(t, cs.push(x)) == apply_one(apply_coercions(t, cs), x.0, x.1),
    decreases cs.len(),
{
    reveal_with_fuel(apply_coercions, 3);
    if cs.len() == 0 {
        assert(cs.push(x)[0] == x);
        assert(cs.push(x).skip(1) =~= Seq::<(Seq<char>, ColumnType)>::empty());
    } else {
        assert(cs.push(x)[0] == cs[0]);
        assert(cs.push(x).skip(1) =~= cs.skip(1).push(x));
        lemma_apply_snoc(apply_one(t, cs[0].0, cs[0].1), cs.skip(1), x);
    }
}

/// Coercion changes no shape: the column count, the column names, and every
/// column's cell count stay what they were.  No coercion removes a row.
pub proof fn lemma_apply_coercions_shape(t: TableView, cs: Seq<(Seq<char>, ColumnType)>)
    ensures
        apply_coercions(t, cs).cols.len() == t.cols.len(),
        forall|j: int|
            0 <= j < t.cols.len() ==> (#[trigger] apply_coercions(t, cs).cols[j]).name
                == t.cols[j].name,
        forall|j: int|
            0 <= j < t.cols.len() ==> (#[trigger] apply_coercions(t, cs).cols[j]).cells.len()
                == t.cols[j].cells.len(),
        apply_coercions(t, cs).rows() == t.rows(),
    decreases cs.len(),
{
    if cs.len() > 0 {
        lemma_apply_coercions_shape(apply_one(t, cs[0].0, cs[0].1), cs.skip(1));
    }
}

/// Coercion preserves well-formedness: every coerced value matches the new
/// column type.
pub proof fn lemma_apply_coercions_wf(t: TableView, cs: Seq<(Seq<char>, ColumnType)>)
    requires
        t.wf(),
    ensures
        apply_coercions(t, cs).wf(),
    decreases cs.len(),
{
    if cs.len() > 0 {
        let t1 = apply_one(t, cs[0].0, cs[0].1);
        assert forall|j: int| 0 <= j < t1.cols.len() implies (#[trigger] t1.cols[j]).wf(
            t1.rows(),
        ) by {
            assert(t.cols[j].wf(t.rows()));
            if t.cols[j].name == cs[0].0 {
                let c = t.cols[j];
                let cc = coerce_col(c, cs[0].1);
                assert forall|i: int| 0 <= i < cc.cells.len() implies cell_matches(
                    #[trigger] cc.cells[i],
                    cc.ctype,
                ) by {
                    assert(cell_matches(c.cells[i], c.ctype));
                    lemma_coerce_matches(c.cells[i], cs[0].1);
                }
            }
        }
        assert(t1.wf());
        lemma_apply_coercions_wf(t1, cs.skip(1));
    }
}

/// The cleaned table: required-null rows dropped, then the coercion entries
/// applied in order.
pub open spec fn spec_clean_table(
    t: TableView,
    required: Seq<Seq<char>>,
    cs: Seq<(Seq<char>, ColumnType)>,
) -> TableView {
    let idxs = required.map_values(|n: Seq<char>| col_index_of(t, n));
    apply_coercions(filter_table(t, idxs), cs)
}

/// The column names of the coercion entries.
pub open spec fn coercion_names(cs: Seq<(Seq<char>, ColumnType)>) -> Seq<Seq<char>> {
    cs.map_values(|c: (Seq<char>, ColumnType)| c.0)
}

/// Null filtering, exactly: every surviving row holds a present value in
/// every required column, and every dropped row held a null in some required
/// column.
pub proof fn lemma_null_filter(t: TableView, idxs: Seq<int>)
    requires
        t.rows() >= 0,
    ensures
        ({
            let keep = kept_up_to(t, idxs, t.rows());
            &&& forall|k: int|
                0 <= k < keep.len() ==> row_present_at(t, idxs, #[trigger] keep[k])
            &&& forall|i: int|
                0 <= i < t.rows() && !keep.contains(i) ==> exists|r: int|
                    0 <= r < idxs.len() && t.cols[idxs[r]].cells[i] is Null
        }),
{
    lemma_kept_up_to_props(t, idxs, t.rows());
    let keep = kept_up_to(t, idxs, t.rows());
    assert forall|i: int| 0 <= i < t.rows() && !keep.contains(i) implies exists|r: int|
        0 <= r < idxs.len() && t.cols[idxs[r]].cells[i] is Null by {
        if row_present_at(t, idxs, i) {
            assert(keep.contains(i));
        }
    }
}

/// Presence survives coercion at the given columns, provided every coercion
/// entry that names one of them targets the type the column already has:
/// such a coercion keeps each present value as it is.
proof fn lemma_coercions_keep_present(t: TableView, idxs: Seq<int>, cs: Seq<(Seq<char>, ColumnType)>)
    requires
        t.wf(),
        forall|r: int| 0 <= r < idxs.len() ==> 0 <= #[trigger] idxs[r] < t.cols.len(),
        forall|k: int, r: int|
            0 <= k < cs.len() && 0 <= r < idxs.len() && t.cols[idxs[r]].name == (
            #[trigger] cs[k]).0 ==> t.cols[#[trigger] idxs[r]].ctype == cs[k].1,
    ensures
        forall|r: int, i: int|
            0 <= r < idxs.len() && 0 <= i < t.rows() ==> ((#[trigger] apply_coercions(
                t,
                cs,
            ).cols[idxs[r]].cells[i]) is Null <==> t.cols[idxs[r]].cells[i] is Null),
    decreases cs.len(),
{
    if cs.len() > 0 {
        let t1 = apply_one(t, cs[0].0, cs[0].1);
        assert forall|j: int| 0 <= j < t1.cols.len() implies (#[trigger] t1.cols[j]).wf(
            t1.rows(),
        ) by {
            assert(t.cols[j].wf(t.rows()));
            if t.cols[j].name == cs[0].0 {
                assert forall|i: int| 0 <= i < t1.cols[j].cells.len() implies cell_matches(
                    #[trigger] t1.cols[j].cells[i],
                    t1.cols[j].ctype,
                ) by {
                    assert(cell_matches(t.cols[j].cells[i], t.cols[j].ctype));
                    lemma_coerce_matches(t.cols[j].cells[i], cs[0].1);
                }
            }
        }
        assert(t1.wf());
        assert forall|r: int, i: int|
            0 <= r < idxs.len() && 0 <= i < t.rows() implies ((#[trigger] t1.cols[
            idxs[r]].cells[i]) is Null <==> t.cols[idxs[r]].cells[i] is Null) by {
            let j = idxs[r];
            if t.cols[j].name == cs[0].0 {
                assert(t.cols[j].ctype == cs[0].1);
                assert(t.cols[j].wf(t.rows()));
                assert(cell_matches(t.cols[j].cells[i], t.cols[j].ctype));
                if !(t.cols[j].cells[i] is Null) {
                    crate::coerce::lemma_coerce_identity(t.cols[j].cells[i], cs[0].1);
                }
            }
        }
        assert forall|k: int, r: int|
            0 <= k < cs.skip(1).len() && 0 <= r < idxs.len() && t1.cols[idxs[r]].name == (
            #[trigger] cs.skip(1)[k]).0 implies t1.cols[#[trigger] idxs[r]].ctype == cs.skip(
            1,
        )[k].1 by {
            assert(cs.skip(1)[k] == cs[k + 1]);
            assert(t1.cols[idxs[r]].name == t.cols[idxs[r]].name);
            if t.cols[idxs[r]].name == cs[0].0 {
                assert(t1.cols[idxs[r]].ctype == cs[0].1);
                assert(t.cols[idxs[r]].ctype == cs[0].1);
            }
        }
        lemma_coercions_keep_present(t1, idxs, cs.skip(1));
        assert forall|r: int, i: int|
            0 <= r < idxs.len() && 0 <= i < t.rows() implies ((#[trigger] apply_coercions(
                t,
                cs,
            ).cols[idxs[r]].cells[i]) is Null <==> t.cols[idxs[r]].cells[i] is Null) by {
            assert(apply_coercions(t, cs) == apply_coercions(t1, cs.skip(1)));
            assert(t1.rows() == t.rows());
            assert((apply_coercions(t1, cs.skip(1)).cols[idxs[r]].cells[i] is Null) <==> (
            t1.cols[idxs[r]].cells[i] is Null));
        }
    }
}

/// Null-filter correctness at the cleaned output: when every coercion entry
/// that names a required column targets that column's own type — as when the
/// identifier column is already typed as the 32-bit integer — every required
/// cell of the cleaned table is present.
pub proof fn lemma_clean_required_present(
    t: TableView,
    required: Seq<Seq<char>>,
    cs: Seq<(Seq<char>, ColumnType)>,
)
    requires
        t.wf(),
        names_present(t, required),
        forall|k: int, r: int|
            0 <= k < cs.len() && 0 <= r < required.len() && required[r] == (#[trigger] cs[k]).0
                ==> t.cols[col_index_of(t, #[trigger] required[r])].ctype == cs[k].1,
    ensures
        ({
            let idxs = required.map_values(|n: Seq<char>| col_index_of(t, n));
            let out = spec_clean_table(t, required, cs);
            forall|r: int, i: int|
                0 <= r < required.len() && 0 <= i < out.rows() ==> !((#[trigger] out.cols[
                idxs[r]].cells[i]) is Null)
        }),
{
    let idxs = required.map_values(|n: Seq<char>| col_index_of(t, n));
    let f = filter_table(t, idxs);
    let out = spec_clean_table(t, required, cs);
    lemma_kept_up_to_props(t, idxs, t.rows());
    let keep = kept_up_to(t, idxs, t.rows());
    assert forall|r: int| 0 <= r < idxs.len() implies 0 <= #[trigger] idxs[r]
        < t.cols.len() by {
        assert(t.has_col(required[r]));
    }
    assert forall|j: int| 0 <= j < f.cols.len() implies (#[trigger] f.cols[j]).wf(f.rows()) by {
        assert(t.cols[j].wf(t.rows()));
        assert forall|q: int| 0 <= q < f.cols[j].cells.len() implies cell_matches(
            #[trigger] f.cols[j].cells[q],
            f.cols[j].ctype,
        ) by {
            assert(f.cols[j].cells[q] == t.cols[j].cells[keep[q]]);
            assert(cell_matches(t.cols[j].cells[keep[q]], t.cols[j].ctype));
        }
    }
    assert(f.wf());
    assert forall|k: int, r: int|
        0 <= k < cs.len() && 0 <= r < idxs.len() && f.cols[idxs[r]].name == (
        #[trigger] cs[k]).0 implies f.cols[#[trigger] idxs[r]].ctype == cs[k].1 by {
        assert(t.has_col(required[r]));
        assert(f.cols[idxs[r]].name == t.cols[idxs[r]].name);
        assert(t.cols[idxs[r]].name == required[r]);
    }
    lemma_coercions_keep_present(f, idxs, cs);
    lemma_apply_coercions_shape(f, cs);
    assert forall|r: int, i: int|
        0 <= r < required.len() && 0 <= i < out.rows() implies !((#[trigger] out.cols[
        idxs[r]].cells[i]) is Null) by {
        assert(t.has_col(required[r]));
        assert(t.cols[idxs[r]].name == required[r]);
        assert(out.rows() == f.rows());
        assert((out.cols[idxs[r]].cells[i] is Null) <==> (f.cols[idxs[r]].cells[i] is Null));
        assert(f.cols[idxs[r]].cells[i] == t.cols[idxs[r]].cells[keep[i]]);
        assert(row_present_at(t, idxs, keep[i]));
    }
}

/// A copy of a column.
fn copy_column(c: &Column) -> (r: Column)
    ensures
        r@ == c@,
{
    let mut cells: Vec<CellValue> = Vec::new();
    let mut i: usize = 0;
    while i < c.cells.len()
        invariant
            i <= c.cells@.len(),
            cells@.len() == i,
            forall|k: int| 0 <= k < i ==> #[trigger] cells@[k]@ == c@.cells[k],
        decreases c.cells@.len() - i,
    {
        let ghost prev = cells@;
        cells.push(copy_cell(&c.cells[i]));
        proof {
            assert forall|k: int| 0 <= k < i + 1 implies #[trigger] cells@[k]@ == c@.cells[k] by {
                if k < i {
                    assert(cells@[k] == prev[k]);
                }
            }
        }
        i += 1;
    }
    let r = Column { name: copy_chars(&c.name), ctype: c.ctype, cells };
    proof {
        assert(r@.cells =~= c@.cells);
        assert(r@ =~= c@);
    }
    r
}

/// Clean the table: drop the rows in which a required column is null, then
/// reinterpret the named columns under their targets, exactly as
/// `spec_clean_table` says.  Succeeds if and only if every configured name —
/// required or coercion target — names a column of the schema; otherwise the
/// error carries such a missing name.
pub fn clean(t: &Table, required: &Vec<Vec<char>>, coercions: &Vec<Coercion>) -> (r: Result<
    Table,
    SchemaError,
>)
    requires
        t@.wf(),
    ensures
        match r {
            Ok(out) => {
                &&& names_present(t@, views_of(required@))
                &&& names_present(t@, coercion_names(coercions_view(coercions@)))
                &&& out@ == spec_clean_table(
                    t@,
                    views_of(required@),
                    coercions_view(coercions@),
                )
                &&& out@.wf()
                &&& out@.rows() <= t@.rows()
                &&& out@.cols.len() == t@.cols.len()
                &&& forall|j: int|
                    0 <= j < t@.cols.len() ==> (#[trigger] out@.cols[j]).name == t@.cols[j].name
            },
            Err(e) => {
                &&& !t@.has_col(e.column@)
                &&& (views_of(required@).contains(e.column@) || coercion_names(
                    coercions_view(coercions@),
                ).contains(e.column@))
            },
        },
{
    let ghost reqv = views_of(required@);
    let ghost csv = coercions_view(coercions@);
    let mut req_idx: Vec<usize> = Vec::new();
    let mut r: usize = 0;
    while r < required.len()
        invariant
            r <= required@.len(),
            reqv == views_of(required@),
            reqv.len() == required@.len(),
            t@.wf(),
            req_idx@.len() == r,
            forall|k: int|
                0 <= k < r ==> 0 <= #[trigger] req_idx@[k] < t@.cols.len() && t@.cols[
                    req_idx@[k] as int
                ].name == reqv[k] && req_idx@[k] as int == col_index_of(t@, reqv[k]),
        decreases required@.len() - r,
    {
        proof {
            assert(views_of(required@)[r as int] == required@[r as int]@);
        }
        match t.find_col(&required[r]) {
            None => {
                proof {
                    assert(reqv[r as int] == required@[r as int]@);
                    assert(reqv.contains(reqv[r as int]));
                }
                return Err(SchemaError { column: copy_chars(&required[r]) });
            },
            Some(j) => {
                proof {
                    let name = reqv[r as int];
                    assert(t@.cols[j as int].name == name);
                    assert(t@.has_col(name));
                    let j2 = col_index_of(t@, name);
                    assert(0 <= j2 < t@.cols.len() && t@.cols[j2].name == name);
                    assert(j as int == j2);
                }
                req_idx.push(j);
            },
        }
        r += 1;
    }
    let mut c0: usize = 0;
    while c0 < coercions.len()
        invariant
            c0 <= coercions@.len(),
            csv == coercions_view(coercions@),
            csv.len() == coercions@.len(),
            t@.wf(),
            forall|k: int| 0 <= k < c0 ==> t@.has_col((#[trigger] csv[k]).0),
        decreases coercions@.len() - c0,
    {
        proof {
            assert(coercions_view(coercions@)[c0 as int] == coercions@[c0 as int]@);
        }
        match t.find_col(&coercions[c0].column) {
            None => {
                proof {
                    assert(coercion_names(csv)[c0 as int] == csv[c0 as int].0);
                    assert(coercion_names(csv).contains(csv[c0 as int].0));
                }
                return Err(SchemaError { column: copy_chars(&coercions[c0].column) });
            },
            Some(_) => {
                proof {
                    assert(t@.has_col(csv[c0 as int].0));
                }
            },
        }
        c0 += 1;
    }
    let nrows = t.num_rows();
    let ghost iseq = req_idx@.map_values(|u: usize| u as int);
    let mut keep: Vec<usize> = Vec::new();
    let mut i: usize = 0;
    while i < nrows
        invariant
            i <= nrows,
            nrows == t@.rows(),
            t@.wf(),
            iseq == req_idx@.map_values(|u: usize| u as int),
            iseq.len() == req_idx@.len(),
            forall|k: int|
                0 <= k < iseq.len() ==> 0 <= #[trigger] iseq[k] < t@.cols.len(),
            keep@.len() == kept_up_to(t@, iseq, i as int).len(),
            forall|k: int|
                0 <= k < keep@.len() ==> #[trigger] keep@[k] as int == kept_up_to(
                    t@,
                    iseq,
                    i as int,
                )[k],
        decreases nrows - i,
    {
        let mut ok: bool = true;
        let mut rr: usize = 0;
        while rr < req_idx.len()
            invariant
                rr <= req_idx@.len(),
                i < nrows,
                nrows == t@.rows(),
                t@.wf(),
                iseq == req_idx@.map_values(|u: usize| u as int),
                iseq.len() == req_idx@.len(),
                forall|k: int|
                    0 <= k < iseq.len() ==> 0 <= #[trigger] iseq[k] < t@.cols.len(),
                ok <==> (forall|q: int|
                    0 <= q < rr ==> !((#[trigger] t@.cols[iseq[q]].cells[i as int]) is Null)),
            decreases req_idx@.len() - rr,
        {
            let j = req_idx[rr];
            proof {
                assert(iseq[rr as int] == j as int);
                assert(t@.cols[j as int].wf(t@.rows()));
                assert(t@.cols[j as int].cells[i as int] == t.columns@[j as int]@.cells[i as int]);
            }
            if is_null(&t.columns[j].cells[i]) {
                ok = false;
            }
            rr += 1;
        }
        proof {
            assert(ok <==> row_present_at(t@, iseq, i as int));
        }
        let ghost prevk = keep@;
        if ok {
            keep.push(i);
        }
        proof {
            assert(kept_up_to(t@, iseq, i as int + 1) == if row_present_at(t@, iseq, i as int) {
                kept_up_to(t@, iseq, i as int).push(i as int)
            } else {
                kept_up_to(t@, iseq, i as int)
            });
            if ok {
                assert forall|k: int| 0 <= k < keep@.len() implies #[trigger] keep@[k] as int
                    == kept_up_to(t@, iseq, i as int + 1)[k] by {
                    if k < prevk.len() {
                        assert(keep@[k] == prevk[k]);
                    }
                }
            }
        }
        i += 1;
    }
    let ghost keepv = kept_up_to(t@, iseq, t@.rows());
    proof {
        lemma_kept_up_to_props(t@, iseq, t@.rows());
        assert(keep@.len() == keepv.len());
        assert(forall|k: int| 0 <= k < keep@.len() ==> #[trigger] keep@[k] as int == keepv[k]);
    }
    let mut fcols: Vec<Column> = Vec::new();
    let mut j: usize = 0;
    while j < t.columns.len()
        invariant
            j <= t@.cols.len(),
            t@.cols.len() == t.columns@.len(),
            t@.wf(),
            keepv == kept_up_to(t@, iseq, t@.rows()),
            keep@.len() == keepv.len(),
            forall|k: int| 0 <= k < keep@.len() ==> #[trigger] keep@[k] as int == keepv[k],
            forall|k: int| 0 <= k < keepv.len() ==> 0 <= #[trigger] keepv[k] < t@.rows(),
            fcols@.len() == j,
            forall|jj: int|
                0 <= jj < j ==> #[trigger] fcols@[jj]@ == filter_table(t@, iseq).cols[jj],
        decreases t.columns@.len() - j,
    {
        let mut cells: Vec<CellValue> = Vec::new();
        let mut k: usize = 0;
        while k < keep.len()
            invariant
                k <= keep@.len(),
                j < t@.cols.len(),
                t@.wf(),
                keep@.len() == keepv.len(),
                forall|q: int| 0 <= q < keep@.len() ==> #[trigger] keep@[q] as int == keepv[q],
                forall|q: int| 0 <= q < keepv.len() ==> 0 <= #[trigger] keepv[q] < t@.rows(),
                cells@.len() == k,
                forall|q: int|
                    0 <= q < k ==> #[trigger] cells@[q]@ == t@.cols[j as int].cells[keepv[q]],
        decreases keep@.len() - k,
        {
            let row = keep[k];
            proof {
                assert(keep@[k as int] as int == keepv[k as int]);
                assert(t@.cols[j as int].wf(t@.rows()));
            }
            let ghost prevc = cells@;
            let cell = copy_cell(&t.columns[j].cells[row]);
            proof {
                assert(t@.cols[j as int].cells[row as int] == t.columns@[j as int]@.cells[
                    row as int
                ]);
            }
            cells.push(cell);
            proof {
                assert forall|q: int| 0 <= q < k + 1 implies #[trigger] cells@[q]@ == t@.cols[
                    j as int
                ].cells[keepv[q]] by {
                    if q < k {
                        assert(cells@[q] == prevc[q]);
                    }
                }
            }
            k += 1;
        }
        let ghost prevf = fcols@;
        let col = Column {
            name: copy_chars(&t.columns[j].name),
            ctype: t.columns[j].ctype,
            cells,
        };
        proof {
            assert(t@.cols[j as int] == t.columns@[j as int]@);
            assert(col@.cells =~= keepv.map_values(|q: int| t@.cols[j as int].cells[q]));
            assert(col@ =~= filter_table(t@, iseq).cols[j as int]);
        }
        fcols.push(col);
        proof {
            assert forall|jj: int| 0 <= jj < j + 1 implies #[trigger] fcols@[jj]@ == filter_table(
                t@,
                iseq,
            ).cols[jj] by {
                if jj < j {
                    assert(fcols@[jj] == prevf[jj]);
                }
            }
        }
        j += 1;
    }
    let ghost fview = filter_table(t@, iseq);
    let mut cur = Table { columns: fcols };
    proof {
        assert(cur@.cols =~= fview.cols);
        assert(cur@ =~= fview);
        assert(fview.rows() <= t@.rows());
        assert forall|jj: int| 0 <= jj < fview.cols.len() implies (#[trigger] fview.cols[jj]).wf(
            fview.rows(),
        ) by {
            assert(t@.cols[jj].wf(t@.rows()));
            assert forall|q: int| 0 <= q < fview.cols[jj].cells.len() implies cell_matches(
                #[trigger] fview.cols[jj].cells[q],
                fview.cols[jj].ctype,
            ) by {
                assert(fview.cols[jj].cells[q] == t@.cols[jj].cells[keepv[q]]);
                assert(cell_matches(t@.cols[jj].cells[keepv[q]], t@.cols[jj].ctype));
            }
        }
        assert(fview.wf());
        assert(iseq =~= reqv.map_values(|n: Seq<char>| col_index_of(t@, n)));
    }
    let mut c: usize = 0;
    while c < coercions.len()
        invariant
            c <= coercions@.len(),
            csv == coercions_view(coercions@),
            csv.len() == coercions@.len(),
            fview.wf(),
            cur@ == apply_coercions(fview, csv.take(c as int)),
        decreases coercions@.len() - c,
    {
        proof {
            lemma_apply_coercions_shape(fview, csv.take(c as int));
            assert(coercions_view(coercions@)[c as int] == coercions@[c as int]@);
        }
        let ghost prev_cur = cur@;
        let target = coercions[c].target;
        let mut ncols2: Vec<Column> = Vec::new();
        let mut jj: usize = 0;
        while jj < cur.columns.len()
            invariant
                jj <= cur@.cols.len(),
                cur@.cols.len() == cur.columns@.len(),
                cur@ == prev_cur,
                c < coercions@.len(),
                csv == coercions_view(coercions@),
                target == csv[c as int].1,
                coercions@[c as int].column@ == csv[c as int].0,
                ncols2@.len() == jj,
                forall|q: int|
                    0 <= q < jj ==> #[trigger] ncols2@[q]@ == (if cur@.cols[q].name == csv[
                        c as int
                    ].0 {
                        coerce_col(cur@.cols[q], csv[c as int].1)
                    } else {
                        cur@.cols[q]
                    }),
            decreases cur.columns@.len() - jj,
        {
            proof {
                assert(cur@.cols[jj as int] == cur.columns@[jj as int]@);
            }
            let ghost prevn = ncols2@;
            if chars_eq(&cur.columns[jj].name, &coercions[c].column) {
                let mut cc: Vec<CellValue> = Vec::new();
                let mut q: usize = 0;
                while q < cur.columns[jj].cells.len()
                    invariant
                        jj < cur@.cols.len(),
                        cur@.cols.len() == cur.columns@.len(),
                        cur@ == prev_cur,
                        q <= cur.columns@[jj as int]@.cells.len(),
                        cur@.cols[jj as int] == cur.columns@[jj as int]@,
                        c < coercions@.len(),
                        target == csv[c as int].1,
                        cc@.len() == q,
                        forall|p: int|
                            0 <= p < q ==> #[trigger] cc@[p]@ == spec_coerce_cell(
                                cur@.cols[jj as int].cells[p],
                                csv[c as int].1,
                            ),
                    decreases cur.columns@[jj as int]@.cells.len() - q,
                {
                    let ghost prevcc = cc@;
                    cc.push(coerce_cell(&cur.columns[jj].cells[q], target));
                    proof {
                        assert forall|p: int| 0 <= p < q + 1 implies #[trigger] cc@[p]@
                            == spec_coerce_cell(cur@.cols[jj as int].cells[p], csv[c as int].1) by {
                            if p < q {
                                assert(cc@[p] == prevcc[p]);
                            }
                        }
                    }
                    q += 1;
                }
                let col = Column {
                    name: copy_chars(&cur.columns[jj].name),
                    ctype: target,
                    cells: cc,
                };
                proof {
                    assert(col@.cells =~= coerce_col(cur@.cols[jj as int], csv[c as int].1).cells);
                    assert(col@ =~= coerce_col(cur@.cols[jj as int], csv[c as int].1));
                }
                ncols2.push(col);
            } else {
                ncols2.push(copy_column(&cur.columns[jj]));
            }
            proof {
                assert forall|q: int| 0 <= q < jj + 1 implies #[trigger] ncols2@[q]@ == (if cur@
                    .cols[q].name == csv[c as int].0 {
                    coerce_col(cur@.cols[q], csv[c as int].1)
                } else {
                    cur@.cols[q]
                }) by {
                    if q < jj {
                        assert(ncols2@[q] == prevn[q]);
                    }
                }
            }
            jj += 1;
        }
        cur = Table { columns: ncols2 };
        proof {
            assert(cur@.cols =~= apply_one(prev_cur, csv[c as int].0, csv[c as int].1).cols);
            assert(cur@ =~= apply_one(prev_cur, csv[c as int].0, csv[c as int].1));
            lemma_apply_snoc(fview, csv.take(c as int), csv[c as int]);
            assert(csv.take(c as int + 1) =~= csv.take(c as int).push(csv[c as int]));
        }
        c += 1;
    }
    proof {
        assert(csv.take(csv.len() as int) =~= csv);
        assert(cur@ == apply_coercions(fview, csv));
        assert(cur@ == spec_clean_table(t@, reqv, csv));
        lemma_apply_coercions_wf(fview, csv);
        lemma_apply_coercions_shape(fview, csv);
        assert(cur@.rows() == fview.rows());
        assert forall|k: int| 0 <= k < reqv.len() implies t@.has_col(#[trigger] reqv[k]) by {
            assert(t@.cols[req_idx@[k] as int].name == reqv[k]);
        }
        assert forall|k: int| 0 <= k < coercion_names(csv).len() implies t@.has_col(
            #[trigger] coercion_names(csv)[k],
        ) by {
            assert(coercion_names(csv)[k] == csv[k].0);
        }
    }
    Ok(cur)
}

} // verus!
