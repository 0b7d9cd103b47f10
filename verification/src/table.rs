//! The column-oriented table model.
//!
//! A table is an ordered sequence of named, typed columns; every column holds
//! one optionally-absent value per row.  Well-formedness (`TableView::wf`)
//! says that all columns have the table's row count, that column names are
//! unique, and that every present value matches its column's declared type.

use vstd::prelude::*;

verus! {

/// A calendar date.  Only dates that exist on the calendar are well formed,
/// leap years included; see `valid_date`.
#[derive(Clone, Copy, Debug, PartialEq, Eq, Structural)]
pub struct Date {
    pub year: u16,
    pub month: u8,
    pub day: u8,
}

/// Years divisible by four are leap years, except century years that are not
/// divisible by four hundred.
pub open spec fn is_leap_year(y: int) -> bool {
    y % 4 == 0 && (y % 100 != 0 || y % 400 == 0)
}

/// Number of days of month `m` in year `y`.
pub open spec fn days_in_month(y: int, m: int) -> int
    recommends
        1 <= m <= 12,
{
    if m == 2 {
        if is_leap_year(y) {
            29
        } else {
            28
        }
    } else if m == 4 || m == 6 || m == 9 || m == 11 {
        30
    } else {
        31
    }
}

/// The date exists on the calendar.
pub open spec fn valid_date(d: Date) -> bool {
    &&& 1 <= d.month <= 12
    &&& 1 <= d.day <= days_in_month(d.year as int, d.month as int)
}

/// The closed set of column types.
#[derive(Clone, Copy, Debug, PartialEq, Eq, Structural)]
pub enum ColumnType {
    Text,
    Int,
    Date,
}

/// One value of a column: absent, or a value of the column's type.
#[derive(Clone, Debug, PartialEq, Eq)]
pub enum CellValue {
    Null,
    Text(Vec<char>),
    Int(i32),
    Date(Date),
}

/// Mathematical value of a `CellValue`.
#[verifier::ext_equal]
pub enum CellView {
    Null,
    Text(Seq<char>),
    Int(int),
    Date(Date),
}

impl View for CellValue {
    type V = CellView;

    open spec fn view(&self) -> CellView {
        match self {
            CellValue::Null => CellView::Null,
            CellValue::Text(s) => CellView::Text(s@),
            CellValue::Int(i) => CellView::Int(*i as int),
            CellValue::Date(d) => CellView::Date(*d),
        }
    }
}

/// A present value of the given type, or absent.
pub open spec fn cell_matches(c: CellView, t: ColumnType) -> bool {
    match c {
        CellView::Null => true,
        CellView::Text(_) => t == ColumnType::Text,
        CellView::Int(i) => t == ColumnType::Int && i32::MIN <= i <= i32::MAX,
        CellView::Date(d) => t == ColumnType::Date && valid_date(d),
    }
}

/// A named, typed column.
#[derive(Clone, Debug)]
pub struct Column {
    pub name: Vec<char>,
    pub ctype: ColumnType,
    pub cells: Vec<CellValue>,
}

/// Mathematical value of a `Column`.
#[verifier::ext_equal]
pub struct ColumnView {
    pub name: Seq<char>,
    pub ctype: ColumnType,
    pub cells: Seq<CellView>,
}

impl View for Column {
    type V = ColumnView;

    open spec fn view(&self) -> ColumnView {
        ColumnView {
            name: self.name@,
            ctype: self.ctype,
            cells: Seq::new(self.cells.len() as nat, |i: int| self.cells[i]@),
        }
    }
}

impl ColumnView {
    /// Every present value matches the declared type, and there is one value
    /// per row.
    pub open spec fn wf(self, rows: int) -> bool {
        &&& self.cells.len() == rows
        &&& forall|i: int| 0 <= i < rows ==> cell_matches(#[trigger] self.cells[i], self.ctype)
    }
}

/// An ordered sequence of named, typed columns, all of one length.
#[derive(Clone, Debug)]
pub struct Table {
    pub columns: Vec<Column>,
}

/// Mathematical value of a `Table`.
#[verifier::ext_equal]
pub struct TableView {
    pub cols: Seq<ColumnView>,
}

impl View for Table {
    type V = TableView;

    open spec fn view(&self) -> TableView {
        TableView { cols: Seq::new(self.columns.len() as nat, |j: int| self.columns[j]@) }
    }
}

impl TableView {
    /// The table's row count: the length shared by its columns (zero for a
    /// table of no columns).
    pub open spec fn rows(self) -> int {
        if self.cols.len() == 0 {
            0
        } else {
            self.cols[0].cells.len() as int
        }
    }

    /// First column of the given name, if any.
    pub open spec fn col_index(self, name: Seq<char>) -> Option<int> {
        if exists|j: int| 0 <= j < self.cols.len() && self.cols[j].name == name {
            Some(choose|j: int| 0 <= j < self.cols.len() && self.cols[j].name == name)
        } else {
            None
        }
    }

    /// The name names a column of the table.
    pub open spec fn has_col(self, name: Seq<char>) -> bool {
        exists|j: int| 0 <= j < self.cols.len() && #[trigger] self.cols[j].name == name
    }

    /// All columns share one row count, names are unique, and every value
    /// matches its column's type.
    pub open spec fn wf(self) -> bool {
        &&& forall|j: int| 0 <= j < self.cols.len() ==> (#[trigger] self.cols[j]).wf(self.rows())
        &&& forall|j: int, k: int|
            0 <= j < k < self.cols.len() ==> self.cols[j].name != self.cols[k].name
    }
}

/// Character-sequence equality, decided left to right.
pub fn chars_eq(a: &Vec<char>, b: &Vec<char>) -> (r: bool)
    ensures
        r <==> a@ == b@,
{
    if a.len() != b.len() {
        return false;
    }
    let mut i: usize = 0;
    while i < a.len()
        invariant
            a@.len() == b@.len(),
            i <= a@.len(),
            forall|k: int| 0 <= k < i ==> a@[k] == b@[k],
        decreases a@.len() - i,
    {
        if a[i] != b[i] {
            return false;
        }
        i += 1;
    }
    proof {
        assert(a@ =~= b@);
    }
    true
}

/// A copy of a character sequence.
pub fn copy_chars(a: &Vec<char>) -> (r: Vec<char>)
    ensures
        r@ == a@,
{
    let mut out: Vec<char> = Vec::new();
    let mut i: usize = 0;
    while i < a.len()
        invariant
            i <= a@.len(),
            out@ == a@.take(i as int),
        decreases a@.len() - i,
    {
        out.push(a[i]);
        proof {
            assert(a@.take(i as int + 1) =~= a@.take(i as int).push(a@[i as int]));
        }
        i += 1;
    }
    proof {
        assert(a@.take(a@.len() as int) =~= a@);
    }
    out
}

/// A copy of a cell.
pub fn copy_cell(c: &CellValue) -> (r: CellValue)
    ensures
        r@ == c@,
{
    match c {
        CellValue::Null => CellValue::Null,
        CellValue::Text(s) => CellValue::Text(copy_chars(s)),
        CellValue::Int(i) => CellValue::Int(*i),
        CellValue::Date(d) => CellValue::Date(*d),
    }
}

/// The cell is absent.
pub fn is_null(c: &CellValue) -> (r: bool)
    ensures
        r <==> c@ is Null,
{
    match c {
        CellValue::Null => true,
        _ => false,
    }
}

/// Cell equality, by the cells' mathematical values.
pub fn cell_eq(a: &CellValue, b: &CellValue) -> (r: bool)
    ensures
        r <==> a@ == b@,
{
    match (a, b) {
        (CellValue::Null, CellValue::Null) => true,
        (CellValue::Text(x), CellValue::Text(y)) => chars_eq(x, y),
        (CellValue::Int(x), CellValue::Int(y)) => x == y,
        (CellValue::Date(x), CellValue::Date(y)) => x == y,
        _ => false,
    }
}

impl Table {
    /// The table's row count.
    pub fn num_rows(&self) -> (r: usize)
        ensures
            r == self@.rows(),
    {
        if self.columns.len() == 0 {
            0
        } else {
            self.columns[0].cells.len()
        }
    }

    /// Index of the column of the given name, if the schema has it.
    pub fn find_col(&self, name: &Vec<char>) -> (r: Option<usize>)
        ensures
            match r {
                Some(j) => 0 <= j < self@.cols.len() && self@.cols[j as int].name == name@,
                None => !self@.has_col(name@),
            },
    {
        let mut j: usize = 0;
        while j < self.columns.len()
            invariant
                j <= self.columns.len(),
                forall|k: int| 0 <= k < j ==> self@.cols[k].name != name@,
        decreases self.columns.len() - j,
        {
            if chars_eq(&self.columns[j].name, name) {
                return Some(j);
            }
            j += 1;
        }
        None
    }
}

} // verus!
