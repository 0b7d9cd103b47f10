//! The aggregator.
//!
//! Grouping walks the rows in order and counts, for every distinct value of
//! the group column, the rows whose count column holds a present value.  A
//! null group key is a key like any other and forms its own group; a row
//! whose count cell is null still opens its group, with nothing counted.
//! Groups are emitted in first-appearance order, though callers should read
//! the result as a multiset: the order carries no meaning.  An empty table
//! yields zero groups.

use vstd::prelude::*;
use crate::clean::col_index_of;
use crate::error::SchemaError;
use crate::table::{CellView, CellValue, Table, TableView, cell_eq, copy_cell, copy_chars,
    is_null};

verus! {

/// One row of the grouped result: a group key and a non-negative count.
#[derive(Debug)]
pub struct AggregateRow {
    pub key: CellValue,
    pub count: u32,
}

impl View for AggregateRow {
    type V = (CellView, int);

    open spec fn view(&self) -> (CellView, int) {
        (self.key@, self.count as int)
    }
}

/// The grouped result: the key and count column names, and one row per
/// distinct key.
#[derive(Debug)]
pub struct GroupedCounts {
    pub key_column: Vec<char>,
    pub count_column: Vec<char>,
    pub rows: Vec<AggregateRow>,
}

/// The mathematical values of the aggregate rows.
pub open spec fn agg_view(v: Seq<AggregateRow>) -> Seq<(CellView, int)> {
    v.map_values(|r: AggregateRow| r@)
}

/// First group of the given key, if any.
pub open spec fn index_of_key(g: Seq<(CellView, int)>, k: CellView) -> Option<int>
    decreases g.len(),
{
    if g.len() == 0 {
        None
    } else if g[0].0 == k {
        Some(0)
    } else {
        match index_of_key(g.skip(1), k) {
            Some(i) => Some(i + 1),
            None => None,
        }
    }
}

/// Some group carries the key.
pub open spec fn has_key(g: Seq<(CellView, int)>, k: CellView) -> bool {
    exists|j: int| 0 <= j < g.len() && (#[trigger] g[j]).0 == k
}

/// `index_of_key` is the position of the first group of the key.
proof fn lemma_index_of_key(g: Seq<(CellView, int)>, k: CellView, q: int)
    requires
        0 <= q <= g.len(),
        forall|p: int| 0 <= p < q ==> (#[trigger] g[p]).0 != k,
        q < g.len() ==> g[q].0 == k,
    ensures
        index_of_key(g, k) == if q < g.len() {
            Some(q)
        } else {
            None::<int>
        },
    decreases g.len(),
{
    if g.len() > 0 {
        if g[0].0 == k {
            assert(q == 0);
        } else {
            assert(q >= 1);
            let gs = g.skip(1);
            assert forall|p: int| 0 <= p < q - 1 implies (#[trigger] gs[p]).0 != k by {
                assert(gs[p] == g[p + 1]);
            }
            lemma_index_of_key(gs, k, q - 1);
        }
    }
}

/// The groups over the first `n` rows, keyed by the group column's values,
/// counting rows whose count cell is present.
pub open spec fn spec_group_up_to(keys: Seq<CellView>, cnt: Seq<CellView>, n: int) -> Seq<
    (CellView, int),
>
    decreases n,
{
    if n <= 0 {
        Seq::empty()
    } else {
        let g = spec_group_up_to(keys, cnt, n - 1);
        let k = keys[n - 1];
        let inc: int = if cnt[n - 1] is Null {
            0
        } else {
            1
        };
        match index_of_key(g, k) {
            Some(j) => g.update(j, (k, g[j].1 + inc)),
            None => g.push((k, inc)),
        }
    }
}

/// Sum of the group counts.
pub open spec fn sum_counts(g: Seq<(CellView, int)>) -> int
    decreases g.len(),
{
    if g.len() == 0 {
        0
    } else {
        sum_counts(g.drop_last()) + g.last().1
    }
}

/// Number of present count cells among the first `n` rows.
pub open spec fn count_present(cnt: Seq<CellView>, n: int) -> int
    decreases n,
{
    if n <= 0 {
        0
    } else {
        count_present(cnt, n - 1) + (if cnt[n - 1] is Null {
            0int
        } else {
            1int
        })
    }
}

/// Number of rows among the first `n` whose key is `k` and whose count cell
/// is present.
pub open spec fn key_count(keys: Seq<CellView>, cnt: Seq<CellView>, k: CellView, n: int) -> int
    decreases n,
{
    if n <= 0 {
        0
    } else {
        key_count(keys, cnt, k, n - 1) + (if keys[n - 1] == k && !(cnt[n - 1] is Null) {
            1int
        } else {
            0int
        })
    }
}

/// Updating one group changes the sum by the count's change.
proof fn lemma_sum_update(g: Seq<(CellView, int)>, j: int, x: (CellView, int))
    requires
        0 <= j < g.len(),
    ensures
        sum_counts(g.update(j, x)) == sum_counts(g) - g[j].1 + x.1,
    decreases g.len(),
{
    let u = g.update(j, x);
    if j == g.len() - 1 {
        assert(u.drop_last() =~= g.drop_last());
        assert(u.last() == x);
    } else {
        assert(u.drop_last() =~= g.drop_last().update(j, x));
        assert(u.last() == g.last());
        lemma_sum_update(g.drop_last(), j, x);
    }
}

/// Appending one group adds its count to the sum.
proof fn lemma_sum_push(g: Seq<(CellView, int)>, x: (CellView, int))
    ensures
        sum_counts(g.push(x)) == sum_counts(g) + x.1,
{
    assert(g.push(x).drop_last() =~= g);
    assert(g.push(x).last() == x);
}

/// What grouping guarantees: one group per distinct key of the scanned rows,
/// each carrying exactly the number of its rows with a present count cell;
/// no group from nowhere; counts no larger than the rows scanned; and the
/// sum of all group counts equal to the number of present count cells — the
/// aggregation-totals law.
pub proof fn lemma_group_props(keys: Seq<CellView>, cnt: Seq<CellView>, n: int)
    requires
        0 <= n,
    ensures
        ({
            let g = spec_group_up_to(keys, cnt, n);
            &&& sum_counts(g) == count_present(cnt, n)
            &&& g.len() <= n
            &&& forall|a: int, b: int| 0 <= a < b < g.len() ==> (#[trigger] g[a]).0 != (
            #[trigger] g[b]).0
            &&& forall|j: int|
                0 <= j < g.len() ==> exists|i: int|
                    0 <= i < n && keys[i] == (#[trigger] g[j]).0
            &&& forall|i: int| 0 <= i < n ==> has_key(g, #[trigger] keys[i])
            &&& forall|j: int|
                0 <= j < g.len() ==> (#[trigger] g[j]).1 == key_count(keys, cnt, g[j].0, n)
            &&& forall|j: int| 0 <= j < g.len() ==> 0 <= (#[trigger] g[j]).1 <= n
        }),
    decreases n,
{
    if n > 0 {
        lemma_group_props(keys, cnt, n - 1);
        let p = spec_group_up_to(keys, cnt, n - 1);
        let g = spec_group_up_to(keys, cnt, n);
        let k = keys[n - 1];
        let inc: int = if cnt[n - 1] is Null {
            0
        } else {
            1
        };
        match index_of_key(p, k) {
            Some(j) => {
                assert(0 <= j < p.len()) by {
                    lemma_index_of_key_bounds(p, k);
                }
                assert(p[j].0 == k) by {
                    lemma_index_of_key_bounds(p, k);
                }
                lemma_sum_update(p, j, (k, p[j].1 + inc));
                assert(g == p.update(j, (k, p[j].1 + inc)));
                assert forall|jj: int| 0 <= jj < g.len() implies (#[trigger] g[jj]).1
                    == key_count(keys, cnt, g[jj].0, n) by {
                    if jj == j {
                        assert(g[jj].0 == k);
                        assert(key_count(keys, cnt, k, n) == key_count(keys, cnt, k, n - 1)
                            + inc);
                    } else {
                        assert(g[jj] == p[jj]);
                        assert(g[jj].0 != k);
                        assert(key_count(keys, cnt, g[jj].0, n) == key_count(
                            keys,
                            cnt,
                            g[jj].0,
                            n - 1,
                        ));
                    }
                }
                assert forall|i: int| 0 <= i < n implies has_key(g, #[trigger] keys[i]) by {
                    if i < n - 1 {
                        assert(has_key(p, keys[i]));
                        let jj = choose|jj: int|
                            0 <= jj < p.len() && (#[trigger] p[jj]).0 == keys[i];
                        if jj == j {
                            assert(g[j].0 == keys[i]);
                        } else {
                            assert(g[jj].0 == keys[i]);
                        }
                    } else {
                        assert(g[j].0 == k);
                    }
                }
            },
            None => {
                assert(!has_key(p, k)) by {
                    lemma_index_of_key_bounds(p, k);
                }
                lemma_sum_push(p, (k, inc));
                assert(g == p.push((k, inc)));
                assert forall|jj: int| 0 <= jj < g.len() implies (#[trigger] g[jj]).1
                    == key_count(keys, cnt, g[jj].0, n) by {
                    if jj < p.len() {
                        assert(g[jj] == p[jj]);
                        assert(g[jj].0 != k);
                        assert(key_count(keys, cnt, g[jj].0, n) == key_count(
                            keys,
                            cnt,
                            g[jj].0,
                            n - 1,
                        ));
                    } else {
                        assert(g[jj] == (k, inc));
                        assert(key_count(keys, cnt, k, n) == key_count(keys, cnt, k, n - 1)
                            + inc);
                        lemma_key_count_absent(keys, cnt, p, k, n - 1);
                    }
                }
                assert forall|i: int| 0 <= i < n implies has_key(g, #[trigger] keys[i]) by {
                    if i < n - 1 {
                        assert(has_key(p, keys[i]));
                        let jj = choose|jj: int|
                            0 <= jj < p.len() && (#[trigger] p[jj]).0 == keys[i];
                        assert(g[jj].0 == keys[i]);
                    } else {
                        assert(g[g.len() - 1].0 == k);
                    }
                }
            },
        }
    }
}

/// A found key lies in range and matches; an unfound key is in no group.
proof fn lemma_index_of_key_bounds(g: Seq<(CellView, int)>, k: CellView)
    ensures
        match index_of_key(g, k) {
            Some(j) => 0 <= j < g.len() && g[j].0 == k,
            None => !has_key(g, k),
        },
    decreases g.len(),
{
    if g.len() > 0 {
        if g[0].0 != k {
            lemma_index_of_key_bounds(g.skip(1), k);
            match index_of_key(g.skip(1), k) {
                Some(i) => {
                    assert(g.skip(1)[i] == g[i + 1]);
                },
                None => {
                    assert forall|j: int| 0 <= j < g.len() implies (#[trigger] g[j]).0 != k by {
                        if j > 0 {
                            assert(g.skip(1)[j - 1] == g[j]);
                        }
                    }
                },
            }
        }
    }
}

/// A key in no group has counted no rows yet.
proof fn lemma_key_count_absent(
    keys: Seq<CellView>,
    cnt: Seq<CellView>,
    g: Seq<(CellView, int)>,
    k: CellView,
    n: int,
)
    requires
        0 <= n,
        g == spec_group_up_to(keys, cnt, n),
        !has_key(g, k),
    ensures
        key_count(keys, cnt, k, n) == 0,
    decreases n,
{
    if n > 0 {
        let p = spec_group_up_to(keys, cnt, n - 1);
        lemma_group_props(keys, cnt, n - 1);
        lemma_index_of_key_bounds(p, keys[n - 1]);
        match index_of_key(p, keys[n - 1]) {
            Some(j) => {
                assert(g == p.update(j, (keys[n - 1], p[j].1 + (if cnt[n - 1] is Null {
                    0int
                } else {
                    1int
                }))));
                assert(g[j].0 == keys[n - 1]);
                assert(keys[n - 1] != k);
                assert forall|jj: int| 0 <= jj < p.len() implies (#[trigger] p[jj]).0 != k by {
                    if jj == j {
                    } else {
                        assert(g[jj] == p[jj]);
                    }
                }
                lemma_key_count_absent(keys, cnt, p, k, n - 1);
            },
            None => {
                assert(g == p.push((keys[n - 1], if cnt[n - 1] is Null {
                    0int
                } else {
                    1int
                })));
                assert(g[g.len() - 1].0 == keys[n - 1]);
                assert(keys[n - 1] != k);
                assert forall|jj: int| 0 <= jj < p.len() implies (#[trigger] p[jj]).0 != k by {
                    assert(g[jj] == p[jj]);
                }
                lemma_key_count_absent(keys, cnt, p, k, n - 1);
            },
        }
    }
}

/// The values of the named column.
pub open spec fn column_cells(t: TableView, name: Seq<char>) -> Seq<CellView> {
    t.cols[col_index_of(t, name)].cells
}

/// Group the rows by the group column's value and count, per group, the rows
/// whose count column holds a present value, exactly as `spec_group_up_to`
/// over the whole table says.  Succeeds if and only if both names name
/// columns of the schema.
pub fn group_count(
    t: &Table,
    group_by: &Vec<char>,
    count_col: &Vec<char>,
    out_name: &Vec<char>,
) -> (r: Result<GroupedCounts, SchemaError>)
    requires
        t@.wf(),
        t@.rows() <= u32::MAX as int,
    ensures
        match r {
            Ok(g) => {
                &&& t@.has_col(group_by@)
                &&& t@.has_col(count_col@)
                &&& g.key_column@ == group_by@
                &&& g.count_column@ == out_name@
                &&& agg_view(g.rows@) == spec_group_up_to(
                    column_cells(t@, group_by@),
                    column_cells(t@, count_col@),
                    t@.rows(),
                )
                &&& g.rows@.len() <= t@.rows()
            },
            Err(e) => {
                &&& !t@.has_col(e.column@)
                &&& (e.column@ == group_by@ || e.column@ == count_col@)
            },
        },
{
    let gi = match t.find_col(group_by) {
        Some(j) => j,
        None => {
            return Err(SchemaError { column: copy_chars(group_by) });
        },
    };
    let ci = match t.find_col(count_col) {
        Some(j) => j,
        None => {
            return Err(SchemaError { column: copy_chars(count_col) });
        },
    };
    proof {
        assert(t@.has_col(group_by@));
        assert(t@.has_col(count_col@));
        let g2 = col_index_of(t@, group_by@);
        assert(0 <= g2 < t@.cols.len() && t@.cols[g2].name == group_by@);
        assert(gi as int == g2);
        let c2 = col_index_of(t@, count_col@);
        assert(0 <= c2 < t@.cols.len() && t@.cols[c2].name == count_col@);
        assert(ci as int == c2);
    }
    let ghost keys = column_cells(t@, group_by@);
    let ghost cnts = column_cells(t@, count_col@);
    let nrows = t.num_rows();
    let mut out: Vec<AggregateRow> = Vec::new();
    let mut i: usize = 0;
    while i < nrows
        invariant
            i <= nrows,
            nrows == t@.rows(),
            nrows <= u32::MAX,
            t@.wf(),
            gi < t@.cols.len(),
            ci < t@.cols.len(),
            keys == t@.cols[gi as int].cells,
            cnts == t@.cols[ci as int].cells,
            agg_view(out@) == spec_group_up_to(keys, cnts, i as int),
            forall|j: int| 0 <= j < out@.len() ==> (#[trigger] out@[j]).count <= i,
        decreases nrows - i,
    {
        proof {
            assert(t@.cols[gi as int].wf(t@.rows()));
            assert(t@.cols[ci as int].wf(t@.rows()));
            assert(t@.cols[gi as int].cells[i as int] == t.columns@[gi as int]@.cells[i as int]);
            assert(t@.cols[ci as int].cells[i as int] == t.columns@[ci as int]@.cells[i as int]);
        }
        let key = &t.columns[gi].cells[i];
        let inc: u32 = if is_null(&t.columns[ci].cells[i]) {
            0
        } else {
            1
        };
        let mut q: usize = 0;
        let mut found: bool = false;
        while q < out.len() && !found
            invariant
                q <= out@.len(),
                i < nrows,
                t@.wf(),
                gi < t@.cols.len(),
                keys == t@.cols[gi as int].cells,
                key@ == keys[i as int],
                forall|p: int| 0 <= p < q ==> (#[trigger] agg_view(out@)[p]).0 != key@,
                found ==> q < out@.len() && agg_view(out@)[q as int].0 == key@,
            decreases out@.len() - q, (if found { 0int } else { 1int }),
        {
            if cell_eq(&out[q].key, key) {
                found = true;
                proof {
                    assert(agg_view(out@)[q as int] == out@[q as int]@);
                }
            } else {
                proof {
                    assert(agg_view(out@)[q as int] == out@[q as int]@);
                }
                q += 1;
            }
        }
        let ghost prevv = agg_view(out@);
        let ghost prev_out = out@;
        if found {
            proof {
                lemma_index_of_key(prevv, key@, q as int);
                assert(index_of_key(prevv, key@) == Some(q as int));
                assert(prev_out[q as int].count <= i);
            }
            let c2 = out[q].count + inc;
            let newrow = AggregateRow { key: copy_cell(&out[q].key), count: c2 };
            out[q] = newrow;
            proof {
                assert(agg_view(out@) =~= prevv.update(
                    q as int,
                    (key@, prevv[q as int].1 + inc as int),
                ));
                assert forall|j: int| 0 <= j < out@.len() implies (#[trigger] out@[j]).count <= i
                    + 1 by {
                    if j != q {
                        assert(out@[j] == prev_out[j]);
                    }
                }
            }
        } else {
            proof {
                lemma_index_of_key(prevv, key@, q as int);
                assert(index_of_key(prevv, key@) is None);
            }
            out.push(AggregateRow { key: copy_cell(key), count: inc });
            proof {
                assert(agg_view(out@) =~= prevv.push((key@, inc as int)));
                assert forall|j: int| 0 <= j < out@.len() implies (#[trigger] out@[j]).count <= i
                    + 1 by {
                    if j < prev_out.len() {
                        assert(out@[j] == prev_out[j]);
                    }
                }
            }
        }
        i += 1;
    }
    proof {
        lemma_group_props(keys, cnts, nrows as int);
        assert(out@.len() == agg_view(out@).len());
    }
    Ok(
        GroupedCounts {
            key_column: copy_chars(group_by),
            count_column: copy_chars(out_name),
            rows: out,
        },
    )
}

} // verus!
