//! The tabular parser.
//!
//! Delimited text becomes a typed, column-oriented `Table`.  The first line
//! is the header and supplies the column names; every further line is one
//! row, split on the delimiter.  An empty field is a null.  Each column's
//! type is inferred from its data: a column is textual unless it has a
//! present value and every present value parses as a 32-bit integer, or
//! failing that as a date of the fixed calendar pattern.  Lines are
//! terminated by a newline, with one carriage return before it tolerated;
//! a final trailing newline does not open a last, empty row.

use vstd::prelude::*;
use crate::coerce::{spec_coerce_cell, spec_parse_date, spec_parse_i32, coerce_cell, parse_date,
    parse_i32};
use crate::error::ParseError;
use crate::table::{CellValue, CellView, Column, ColumnType, ColumnView, Table, TableView,
    cell_matches, chars_eq, copy_chars};

verus! {

/// The mathematical values of a sequence of character vectors.
pub open spec fn views_of(v: Seq<Vec<char>>) -> Seq<Seq<char>> {
    v.map_values(|x: Vec<char>| x@)
}

/// The segments of `s` between occurrences of `d`: always one more segment
/// than there are delimiters.
pub open spec fn split_on(s: Seq<char>, d: char) -> Seq<Seq<char>>
    decreases s.len(),
{
    if s.len() == 0 {
        Seq::empty().push(Seq::empty())
    } else {
        let rest = split_on(s.skip(1), d);
        if s[0] == d {
            Seq::empty().push(Seq::<char>::empty()) + rest
        } else {
            rest.update(0, Seq::empty().push(s[0]) + rest[0])
        }
    }
}

/// There is always at least one segment.
pub proof fn lemma_split_len_pos(s: Seq<char>, d: char)
    ensures
        split_on(s, d).len() >= 1,
    decreases s.len(),
{
    if s.len() > 0 {
        lemma_split_len_pos(s.skip(1), d);
    }
}

/// Extending the text by one character extends the last segment, or opens a
/// new empty one when the character is the delimiter.
proof fn lemma_split_snoc(s: Seq<char>, d: char, c: char)
    ensures
        ({
            let r = split_on(s, d);
            split_on(s.push(c), d) == if c == d {
                r.push(Seq::<char>::empty())
            } else {
                r.update(r.len() - 1, r.last().push(c))
            }
        }),
    decreases s.len(),
{
    reveal_with_fuel(split_on, 4);
    lemma_split_len_pos(s, d);
    if s.len() == 0 {
        let r = split_on(s, d);
        assert(r =~= Seq::empty().push(Seq::<char>::empty()));
        assert(s.push(c)[0] == c);
        assert(s.push(c).skip(1) =~= Seq::<char>::empty());
        if c == d {
            assert(split_on(s.push(c), d) =~= r.push(Seq::<char>::empty()));
        } else {
            assert(split_on(s.push(c), d) =~= r.update(0, Seq::empty().push(c)));
            assert(r.last().push(c) =~= Seq::empty().push(c));
        }
    } else {
        let r = split_on(s, d);
        let rs = split_on(s.skip(1), d);
        lemma_split_len_pos(s.skip(1), d);
        assert(s.push(c)[0] == s[0]);
        assert(s.push(c).skip(1) =~= s.skip(1).push(c));
        lemma_split_snoc(s.skip(1), d, c);
        let rsc = split_on(s.skip(1).push(c), d);
        if s[0] == d {
            assert(r == Seq::empty().push(Seq::<char>::empty()) + rs);
            assert(split_on(s.push(c), d) == Seq::empty().push(Seq::<char>::empty()) + rsc);
            if c == d {
                assert(Seq::empty().push(Seq::<char>::empty()) + rs.push(Seq::<char>::empty())
                    =~= r.push(Seq::<char>::empty()));
            } else {
                assert(Seq::empty().push(Seq::<char>::empty()) + rs.update(
                    rs.len() - 1,
                    rs.last().push(c),
                ) =~= r.update(r.len() - 1, r.last().push(c)));
            }
        } else {
            assert(r == rs.update(0, Seq::empty().push(s[0]) + rs[0]));
            assert(split_on(s.push(c), d) == rsc.update(0, Seq::empty().push(s[0]) + rsc[0]));
            if c == d {
                assert(rsc == rs.push(Seq::<char>::empty()));
                assert(rsc[0] == rs[0]);
                assert(rs.push(Seq::<char>::empty()).update(0, Seq::empty().push(s[0]) + rs[0])
                    =~= r.push(Seq::<char>::empty()));
            } else {
                assert(rsc == rs.update(rs.len() - 1, rs.last().push(c)));
                if rs.len() == 1 {
                    assert(rsc[0] == rs[0].push(c));
                    assert(rsc.update(0, Seq::empty().push(s[0]) + rsc[0]) =~= r.update(
                        r.len() - 1,
                        r.last().push(c),
                    ));
                } else {
                    assert(rsc[0] == rs[0]);
                    assert(rsc.update(0, Seq::empty().push(s[0]) + rs[0]) =~= r.update(
                        r.len() - 1,
                        r.last().push(c),
                    ));
                }
            }
        }
    }
}

/// The segments of `s` between occurrences of `d`.
pub fn split_chars(s: &Vec<char>, d: char) -> (r: Vec<Vec<char>>)
    ensures
        views_of(r@) == split_on(s@, d),
        r@.len() >= 1,
{
    let mut out: Vec<Vec<char>> = Vec::new();
    let mut cur: Vec<char> = Vec::new();
    let mut i: usize = 0;
    while i < s.len()
        invariant
            i <= s@.len(),
            split_on(s@.take(i as int), d) == views_of(out@).push(cur@),
        decreases s@.len() - i,
    {
        let c = s[i];
        proof {
            lemma_split_snoc(s@.take(i as int), d, c);
            assert(s@.take(i as int + 1) =~= s@.take(i as int).push(c));
        }
        let ghost prev = split_on(s@.take(i as int), d);
        if c == d {
            out.push(cur);
            cur = Vec::new();
            proof {
                assert(views_of(out@) =~= prev);
                assert(views_of(out@).push(cur@) =~= prev.push(Seq::<char>::empty()));
            }
        } else {
            cur.push(c);
            proof {
                assert(views_of(out@).push(cur@) =~= prev.update(prev.len() - 1, prev.last().push(
                    c,
                )));
            }
        }
        i += 1;
    }
    proof {
        assert(s@.take(s@.len() as int) =~= s@);
    }
    let ghost whole = split_on(s@, d);
    out.push(cur);
    proof {
        assert(views_of(out@) =~= whole);
        lemma_split_len_pos(s@, d);
    }
    out
}

/// The line with one trailing carriage return removed.
pub open spec fn strip_cr(l: Seq<char>) -> Seq<char> {
    if l.len() > 0 && l.last() == '\r' {
        l.drop_last()
    } else {
        l
    }
}

/// The lines of the text: newline-separated segments, each with one trailing
/// carriage return tolerated, and no last, empty segment after a final
/// trailing newline.
pub open spec fn spec_lines(text: Seq<char>) -> Seq<Seq<char>> {
    let raw = split_on(text, '\n');
    let kept = if text.len() > 0 && text.last() == '\n' {
        raw.drop_last()
    } else {
        raw
    };
    kept.map_values(|l: Seq<char>| strip_cr(l))
}

/// The lines of the text, as `spec_lines` says.
pub fn split_lines(text: &Vec<char>) -> (r: Vec<Vec<char>>)
    ensures
        views_of(r@) == spec_lines(text@),
{
    let mut raw = split_chars(text, '\n');
    let ghost whole = split_on(text@, '\n');
    if text.len() > 0 && text[text.len() - 1] == '\n' {
        let _ = raw.pop();
        proof {
            assert(views_of(raw@) =~= whole.drop_last());
        }
    }
    let ghost kept = views_of(raw@);
    let mut out: Vec<Vec<char>> = Vec::new();
    let mut k: usize = 0;
    while k < raw.len()
        invariant
            k <= raw@.len(),
            kept == views_of(raw@),
            kept.len() == raw@.len(),
            out@.len() == k,
            forall|i: int| 0 <= i < k ==> views_of(out@)[i] == strip_cr(kept[i]),
        decreases raw@.len() - k,
    {
        let mut l = copy_chars(&raw[k]);
        proof {
            assert(l@ == kept[k as int]);
        }
        if l.len() > 0 && l[l.len() - 1] == '\r' {
            let _ = l.pop();
            proof {
                assert(l@ =~= kept[k as int].drop_last());
            }
        }
        proof {
            assert(l@ == strip_cr(kept[k as int]));
        }
        let ghost prev_out = out@;
        out.push(l);
        proof {
            assert forall|i: int| 0 <= i < k + 1 implies views_of(out@)[i] == strip_cr(
                kept[i],
            ) by {
                assert(out@ == prev_out.push(l));
                if i < k {
                    assert(views_of(prev_out)[i] == strip_cr(kept[i]));
                    assert(out@[i] == prev_out[i]);
                    assert(views_of(out@)[i] == out@[i]@);
                } else {
                    assert(views_of(out@)[i] == l@);
                }
            }
        }
        k += 1;
    }
    proof {
        assert(out@.len() == kept.len());
        assert(views_of(out@) =~= kept.map_values(|l: Seq<char>| strip_cr(l)));
    }
    out
}

/// There are at most `len + 1` segments.
pub proof fn lemma_split_count(s: Seq<char>, d: char)
    ensures
        split_on(s, d).len() <= s.len() + 1,
    decreases s.len(),
{
    if s.len() > 0 {
        lemma_split_count(s.skip(1), d);
        lemma_split_len_pos(s.skip(1), d);
        assert(s.skip(1).len() == s.len() - 1);
        if s[0] == d {
            assert(split_on(s, d).len() == 1 + split_on(s.skip(1), d).len());
        } else {
            assert(split_on(s, d).len() == split_on(s.skip(1), d).len());
        }
    }
}

/// There are at most `len + 1` lines.
pub proof fn lemma_lines_count(text: Seq<char>)
    ensures
        spec_lines(text).len() <= text.len() + 1,
{
    lemma_split_count(text, '\n');
    lemma_split_len_pos(text, '\n');
    let raw = split_on(text, '\n');
    let kept = if text.len() > 0 && text.last() == '\n' {
        raw.drop_last()
    } else {
        raw
    };
    assert(kept.len() <= raw.len());
    assert(spec_lines(text) == kept.map_values(|l: Seq<char>| strip_cr(l)));
    assert(spec_lines(text).len() == kept.len());
}

/// A non-empty text has at least one line.
pub proof fn lemma_lines_len_pos(text: Seq<char>)
    requires
        text.len() > 0,
    ensures
        spec_lines(text).len() >= 1,
{
    let raw = split_on(text, '\n');
    lemma_split_len_pos(text, '\n');
    if text.last() == '\n' {
        assert(text =~= text.drop_last().push('\n'));
        lemma_split_snoc(text.drop_last(), '\n', '\n');
        lemma_split_len_pos(text.drop_last(), '\n');
        assert(raw == split_on(text.drop_last(), '\n').push(Seq::<char>::empty()));
        assert(raw.len() >= 2);
    }
}

/// No two column names alike.
pub open spec fn unique_names(names: Seq<Seq<char>>) -> bool {
    forall|j: int, k: int| 0 <= j < k < names.len() ==> names[j] != names[k]
}

/// Some field of the column is present (non-empty).
pub open spec fn has_present(raw: Seq<Seq<char>>) -> bool {
    exists|i: int| 0 <= i < raw.len() && (#[trigger] raw[i]).len() > 0
}

/// Every present field parses as a 32-bit integer.
pub open spec fn all_present_int(raw: Seq<Seq<char>>) -> bool {
    forall|i: int|
        0 <= i < raw.len() ==> ((#[trigger] raw[i]).len() == 0 || spec_parse_i32(raw[i]) is Some)
}

/// Every present field parses as a date of the fixed pattern.
pub open spec fn all_present_date(raw: Seq<Seq<char>>) -> bool {
    forall|i: int|
        0 <= i < raw.len() ==> ((#[trigger] raw[i]).len() == 0 || spec_parse_date(raw[i]) is Some)
}

/// The column type inferred from the raw fields: textual, unless some field
/// is present and every present field parses as the narrower type.
pub open spec fn spec_infer(raw: Seq<Seq<char>>) -> ColumnType {
    if has_present(raw) && all_present_int(raw) {
        ColumnType::Int
    } else if has_present(raw) && all_present_date(raw) {
        ColumnType::Date
    } else {
        ColumnType::Text
    }
}

/// Cell read from one raw field under a column type: an empty field is null,
/// any other is the field reinterpreted non-strictly under the type.
pub open spec fn convert_field(s: Seq<char>, t: ColumnType) -> CellView {
    if s.len() == 0 {
        CellView::Null
    } else {
        spec_coerce_cell(CellView::Text(s), t)
    }
}

/// The typed column read from a name and its raw fields.
pub open spec fn col_of(name: Seq<char>, raw: Seq<Seq<char>>) -> ColumnView {
    let t = spec_infer(raw);
    ColumnView { name, ctype: t, cells: raw.map_values(|s: Seq<char>| convert_field(s, t)) }
}

/// Raw fields of column `j`, over all data lines.
pub open spec fn fields_at(data: Seq<Seq<char>>, d: char, j: int) -> Seq<Seq<char>> {
    Seq::new(data.len(), |i: int| split_on(data[i], d)[j])
}

/// Parsing of delimited text with a header line: the typed table, or the
/// first structural failure.  The input must not be empty; the header's
/// names must be unique; every data line must have as many fields as the
/// header.
pub open spec fn spec_parse(text: Seq<char>, delimiter: char) -> Result<TableView, ParseError> {
    if text.len() == 0 {
        Err(ParseError::EmptyInput)
    } else {
        let ls = spec_lines(text);
        let names = split_on(ls[0], delimiter);
        let data = ls.skip(1);
        if !unique_names(names) {
            Err(ParseError::DuplicateColumn)
        } else if exists|i: int|
            0 <= i < data.len() && (#[trigger] split_on(data[i], delimiter)).len()
                != names.len() {
            Err(ParseError::RaggedRow)
        } else {
            Ok(
                TableView {
                    cols: Seq::new(
                        names.len(),
                        |j: int| col_of(names[j], fields_at(data, delimiter, j)),
                    ),
                },
            )
        }
    }
}

/// How the inference predicates extend by one more field.
proof fn lemma_pred_push(pre: Seq<Seq<char>>, x: Seq<char>)
    ensures
        has_present(pre.push(x)) <==> (has_present(pre) || x.len() > 0),
        all_present_int(pre.push(x)) <==> (all_present_int(pre) && (x.len() == 0
            || spec_parse_i32(x) is Some)),
        all_present_date(pre.push(x)) <==> (all_present_date(pre) && (x.len() == 0
            || spec_parse_date(x) is Some)),
{
    let e = pre.push(x);
    assert(e[pre.len() as int] == x);
    assert(forall|k: int| 0 <= k < pre.len() ==> e[k] == pre[k]);
    if has_present(pre) {
        let k = choose|k: int| 0 <= k < pre.len() && (#[trigger] pre[k]).len() > 0;
        assert(e[k].len() > 0);
    }
    if x.len() > 0 {
        assert(e[pre.len() as int].len() > 0);
    }
    if has_present(e) && x.len() == 0 && !has_present(pre) {
        let k = choose|k: int| 0 <= k < e.len() && (#[trigger] e[k]).len() > 0;
        assert(pre[k].len() > 0);
    }
    if all_present_int(e) {
        assert forall|k: int| 0 <= k < pre.len() implies ((#[trigger] pre[k]).len() == 0
            || spec_parse_i32(pre[k]) is Some) by {
            assert(e[k] == pre[k]);
            assert(e[k].len() == 0 || spec_parse_i32(e[k]) is Some);
        }
    }
    if all_present_int(pre) && (x.len() == 0 || spec_parse_i32(x) is Some) {
        assert forall|k: int| 0 <= k < e.len() implies ((#[trigger] e[k]).len() == 0
            || spec_parse_i32(e[k]) is Some) by {
            if k < pre.len() {
                assert(pre[k].len() == 0 || spec_parse_i32(pre[k]) is Some);
            }
        }
    }
    if all_present_date(e) {
        assert forall|k: int| 0 <= k < pre.len() implies ((#[trigger] pre[k]).len() == 0
            || spec_parse_date(pre[k]) is Some) by {
            assert(e[k] == pre[k]);
            assert(e[k].len() == 0 || spec_parse_date(e[k]) is Some);
        }
    }
    if all_present_date(pre) && (x.len() == 0 || spec_parse_date(x) is Some) {
        assert forall|k: int| 0 <= k < e.len() implies ((#[trigger] e[k]).len() == 0
            || spec_parse_date(e[k]) is Some) by {
            if k < pre.len() {
                assert(pre[k].len() == 0 || spec_parse_date(pre[k]) is Some);
            }
        }
    }
}

/// Every cell of a read column matches the column's inferred type.
pub proof fn lemma_col_of_matches(name: Seq<char>, raw: Seq<Seq<char>>)
    ensures
        ({
            let c = col_of(name, raw);
            forall|i: int|
                0 <= i < c.cells.len() ==> cell_matches(#[trigger] c.cells[i], c.ctype)
        }),
{
    let c = col_of(name, raw);
    let t = spec_infer(raw);
    assert forall|i: int| 0 <= i < c.cells.len() implies cell_matches(
        #[trigger] c.cells[i],
        c.ctype,
    ) by {
        assert(c.cells[i] == convert_field(raw[i], t));
        if raw[i].len() > 0 {
            crate::coerce::lemma_coerce_matches(CellView::Text(raw[i]), t);
        }
    }
}

/// Build one typed column from its name and raw fields.
fn build_column(name: Vec<char>, raw: &Vec<Vec<char>>) -> (c: Column)
    ensures
        c@ == col_of(name@, views_of(raw@)),
        c@.cells.len() == raw@.len(),
{
    let ghost rv = views_of(raw@);
    let mut any: bool = false;
    let mut all_int: bool = true;
    let mut all_date: bool = true;
    let mut i: usize = 0;
    while i < raw.len()
        invariant
            i <= raw@.len(),
            rv == views_of(raw@),
            rv.len() == raw@.len(),
            any <==> has_present(rv.take(i as int)),
            all_int <==> all_present_int(rv.take(i as int)),
            all_date <==> all_present_date(rv.take(i as int)),
        decreases raw@.len() - i,
    {
        let ghost pre = rv.take(i as int);
        proof {
            assert(rv.take(i as int + 1) =~= pre.push(rv[i as int]));
            assert(raw@[i as int]@ == rv[i as int]);
            lemma_pred_push(pre, rv[i as int]);
        }
        if raw[i].len() > 0 {
            any = true;
            if parse_i32(&raw[i]).is_none() {
                all_int = false;
            }
            if parse_date(&raw[i]).is_none() {
                all_date = false;
            }
        }
        i += 1;
    }
    proof {
        assert(rv.take(rv.len() as int) =~= rv);
    }
    let t = if any && all_int {
        ColumnType::Int
    } else if any && all_date {
        ColumnType::Date
    } else {
        ColumnType::Text
    };
    proof {
        assert(t == spec_infer(rv));
    }
    let mut cells: Vec<CellValue> = Vec::new();
    let mut i2: usize = 0;
    while i2 < raw.len()
        invariant
            i2 <= raw@.len(),
            rv == views_of(raw@),
            rv.len() == raw@.len(),
            t == spec_infer(rv),
            cells@.len() == i2,
            forall|k: int| 0 <= k < i2 ==> cells@[k]@ == convert_field(rv[k], t),
        decreases raw@.len() - i2,
    {
        proof {
            assert(raw@[i2 as int]@ == rv[i2 as int]);
        }
        let cv: CellValue = if raw[i2].len() == 0 {
            CellValue::Null
        } else {
            coerce_cell(&CellValue::Text(copy_chars(&raw[i2])), t)
        };
        proof {
            assert(cv@ == convert_field(rv[i2 as int], t));
        }
        let ghost prev = cells@;
        cells.push(cv);
        proof {
            assert forall|k: int| 0 <= k < i2 + 1 implies cells@[k]@ == convert_field(
                rv[k],
                t,
            ) by {
                if k < i2 {
                    assert(cells@[k] == prev[k]);
                    assert(prev[k]@ == convert_field(rv[k], t));
                }
            }
        }
        i2 += 1;
    }
    let c = Column { name, ctype: t, cells };
    proof {
        assert(c@.cells =~= rv.map_values(|s: Seq<char>| convert_field(s, t)));
        assert(c@ =~= col_of(name@, rv));
    }
    c
}

/// Parse delimited text with a header line into a typed table, exactly as
/// `spec_parse` says; a parsed table is well formed.
pub fn parse(text: &Vec<char>, delimiter: char) -> (r: Result<Table, ParseError>)
    ensures
        match r {
            Ok(t) => t@.wf() && spec_parse(text@, delimiter) == Ok::<TableView, ParseError>(t@),
            Err(e) => spec_parse(text@, delimiter) == Err::<TableView, ParseError>(e),
        },
{
    if text.len() == 0 {
        return Err(ParseError::EmptyInput);
    }
    let lines = split_lines(text);
    let ghost ls = spec_lines(text@);
    proof {
        lemma_lines_len_pos(text@);
        assert(lines@.len() == ls.len());
        assert(views_of(lines@)[0] == lines@[0]@);
    }
    let header = split_chars(&lines[0], delimiter);
    let ghost names = split_on(ls[0], delimiter);
    let ncols = header.len();
    proof {
        assert(views_of(header@) == names);
        assert(ncols == names.len());
    }
    let mut j: usize = 0;
    while j < ncols
        invariant
            j <= ncols,
            ncols == header@.len(),
            views_of(header@) == names,
            ncols == names.len(),
            text@.len() > 0,
            ls == spec_lines(text@),
            names == split_on(ls[0], delimiter),
            forall|a: int, b: int| 0 <= a < b < ncols && a < j ==> names[a] != names[b],
        decreases ncols - j,
    {
        let mut k: usize = j + 1;
        while k < ncols
            invariant
                j < ncols,
                j + 1 <= k <= ncols,
                ncols == header@.len(),
                views_of(header@) == names,
                ncols == names.len(),
                text@.len() > 0,
                ls == spec_lines(text@),
                names == split_on(ls[0], delimiter),
                forall|b: int| j < b < k ==> names[j as int] != names[b],
            decreases ncols - k,
        {
            if chars_eq(&header[j], &header[k]) {
                proof {
                    assert(views_of(header@)[j as int] == header@[j as int]@);
                    assert(views_of(header@)[k as int] == header@[k as int]@);
                    assert(names[j as int] == names[k as int]);
                    assert(!unique_names(names));
                }
                return Err(ParseError::DuplicateColumn);
            }
            proof {
                assert(views_of(header@)[j as int] == header@[j as int]@);
                assert(views_of(header@)[k as int] == header@[k as int]@);
            }
            k += 1;
        }
        j += 1;
    }
    proof {
        assert(unique_names(names));
    }
    let ghost data = ls.skip(1);
    let nlines = lines.len();
    let mut rows: Vec<Vec<Vec<char>>> = Vec::new();
    let mut i: usize = 1;
    while i < nlines
        invariant
            1 <= i <= lines@.len(),
            nlines == lines@.len(),
            views_of(lines@) == ls,
            ls.len() == lines@.len(),
            data == ls.skip(1),
            ncols == names.len(),
            text@.len() > 0,
            ls == spec_lines(text@),
            names == split_on(ls[0], delimiter),
            unique_names(names),
            rows@.len() == i - 1,
            forall|k: int|
                0 <= k < i - 1 ==> views_of(#[trigger] rows@[k]@) == split_on(data[k], delimiter)
                    && rows@[k]@.len() == ncols,
        decreases lines@.len() - i,
    {
        proof {
            assert(views_of(lines@)[i as int] == lines@[i as int]@);
            assert(data[i as int - 1] == ls[i as int]);
        }
        let f = split_chars(&lines[i], delimiter);
        if f.len() != ncols {
            proof {
                assert(split_on(data[i as int - 1], delimiter).len() != names.len());
            }
            return Err(ParseError::RaggedRow);
        }
        let ghost prev = rows@;
        rows.push(f);
        proof {
            assert forall|k: int|
                0 <= k < i implies views_of(#[trigger] rows@[k]@) == split_on(data[k], delimiter)
                && rows@[k]@.len() == ncols by {
                if k < i - 1 {
                    assert(rows@[k] == prev[k]);
                }
            }
        }
        i += 1;
    }
    proof {
        assert(data.len() == lines@.len() - 1);
        assert forall|k: int| 0 <= k < data.len() implies (#[trigger] split_on(
            data[k],
            delimiter,
        )).len() == names.len() by {
            assert(views_of(rows@[k]@) == split_on(data[k], delimiter));
            assert(rows@[k]@.len() == ncols);
        }
    }
    let nrows = rows.len();
    let mut columns: Vec<Column> = Vec::new();
    let mut j2: usize = 0;
    while j2 < ncols
        invariant
            j2 <= ncols,
            ncols == header@.len(),
            views_of(header@) == names,
            ncols == names.len(),
            nrows == rows@.len(),
            nrows == data.len(),
            forall|k: int|
                0 <= k < nrows ==> views_of(#[trigger] rows@[k]@) == split_on(data[k], delimiter)
                    && rows@[k]@.len() == ncols,
            columns@.len() == j2,
            forall|jj: int|
                0 <= jj < j2 ==> #[trigger] columns@[jj]@ == col_of(
                    names[jj],
                    fields_at(data, delimiter, jj),
                ) && columns@[jj]@.cells.len() == data.len(),
        decreases ncols - j2,
    {
        let mut raw: Vec<Vec<char>> = Vec::new();
        let mut i2: usize = 0;
        while i2 < nrows
            invariant
                i2 <= nrows,
                j2 < ncols,
                nrows == rows@.len(),
                nrows == data.len(),
                ncols == names.len(),
                forall|k: int|
                    0 <= k < nrows ==> views_of(#[trigger] rows@[k]@) == split_on(
                        data[k],
                        delimiter,
                    ) && rows@[k]@.len() == ncols,
                raw@.len() == i2,
                forall|k: int|
                    0 <= k < i2 ==> #[trigger] raw@[k]@ == split_on(data[k], delimiter)[j2 as int],
            decreases nrows - i2,
        {
            proof {
                assert(views_of(rows@[i2 as int]@)[j2 as int] == rows@[i2 as int]@[j2 as int]@);
            }
            let field = copy_chars(&rows[i2][j2]);
            let ghost prevr = raw@;
            raw.push(field);
            proof {
                assert forall|k: int| 0 <= k < i2 + 1 implies #[trigger] raw@[k]@ == split_on(
                    data[k],
                    delimiter,
                )[j2 as int] by {
                    if k < i2 {
                        assert(raw@[k] == prevr[k]);
                    }
                }
            }
            i2 += 1;
        }
        proof {
            assert(views_of(raw@) =~= fields_at(data, delimiter, j2 as int));
            assert(views_of(header@)[j2 as int] == header@[j2 as int]@);
        }
        let col = build_column(copy_chars(&header[j2]), &raw);
        let ghost prevc = columns@;
        columns.push(col);
        proof {
            assert forall|jj: int| 0 <= jj < j2 + 1 implies #[trigger] columns@[jj]@ == col_of(
                names[jj],
                fields_at(data, delimiter, jj),
            ) && columns@[jj]@.cells.len() == data.len() by {
                if jj < j2 {
                    assert(columns@[jj] == prevc[jj]);
                }
            }
        }
        j2 += 1;
    }
    let t = Table { columns };
    proof {
        let tv = TableView {
            cols: Seq::new(names.len(), |jj: int| col_of(names[jj], fields_at(data, delimiter, jj))),
        };
        assert(t@.cols =~= tv.cols);
        assert(t@ =~= tv);
        assert(spec_parse(text@, delimiter) == Ok::<TableView, ParseError>(tv));
        assert(t@.rows() == data.len());
        assert forall|jj: int| 0 <= jj < t@.cols.len() implies (#[trigger] t@.cols[jj]).wf(
            t@.rows(),
        ) by {
            lemma_col_of_matches(names[jj], fields_at(data, delimiter, jj));
            assert(t@.cols[jj] == col_of(names[jj], fields_at(data, delimiter, jj)));
        }
        assert(t@.wf());
    }
    Ok(t)
}

} // verus!
