//! Non-strict value coercion.
//!
//! A textual value is reinterpreted under a narrower column type by parsing
//! it; a value that does not parse degrades to null instead of failing the
//! operation.  The identifier type is the 32-bit integer; the date type takes
//! exactly the fixed two-digit-month "/" two-digit-day "/" four-digit-year
//! pattern, and the date must exist on the calendar.

use vstd::prelude::*;
use crate::table::{CellValue, CellView, ColumnType, Date, days_in_month, valid_date};

verus! {

/// Decimal digit.
pub open spec fn is_digit(c: char) -> bool {
    0x30 <= c as u32 <= 0x39
}

/// Value of one decimal digit.
pub open spec fn digit_val(c: char) -> int
    recommends
        is_digit(c),
{
    c as u32 - 0x30
}

/// Every character is a decimal digit.
pub open spec fn all_digits(s: Seq<char>) -> bool {
    forall|i: int| 0 <= i < s.len() ==> is_digit(#[trigger] s[i])
}

/// Value of a decimal digit string, most significant digit first.
pub open spec fn digits_val(s: Seq<char>) -> int
    decreases s.len(),
{
    if s.len() == 0 {
        0
    } else {
        digits_val(s.drop_last()) * 10 + digit_val(s.last())
    }
}

/// A digit string's value is non-negative.
pub proof fn lemma_digits_val_nonneg(s: Seq<char>)
    requires
        all_digits(s),
    ensures
        digits_val(s) >= 0,
    decreases s.len(),
{
    if s.len() > 0 {
        assert(all_digits(s.drop_last()));
        lemma_digits_val_nonneg(s.drop_last());
    }
}

/// Appending digits cannot shrink a digit string's value.
pub proof fn lemma_digits_val_prefix_le(s: Seq<char>, n: int)
    requires
        all_digits(s),
        0 <= n <= s.len(),
    ensures
        digits_val(s.take(n)) <= digits_val(s),
    decreases s.len() - n,
{
    if n < s.len() {
        lemma_digits_val_prefix_le(s, n + 1);
        assert(s.take(n + 1).drop_last() =~= s.take(n));
        assert(s.take(n + 1).last() == s[n]);
        assert(is_digit(s[n]));
        assert(forall|i: int| 0 <= i < n ==> is_digit(#[trigger] s.take(n)[i]));
        lemma_digits_val_nonneg(s.take(n));
        assert(digits_val(s.take(n + 1)) == digits_val(s.take(n)) * 10 + digit_val(s.take(n + 1).last()));
        assert(digits_val(s.take(n)) * 10 >= digits_val(s.take(n))) by (nonlinear_arith)
            requires
                digits_val(s.take(n)) >= 0,
        ;
    } else {
        assert(s.take(n) =~= s);
    }
}

/// Parsing of a decimal 32-bit integer: an optional leading minus sign, then
/// one or more digits, and the value must fit the type.
pub open spec fn spec_parse_i32(s: Seq<char>) -> Option<i32> {
    if s.len() > 0 && s[0] == '-' {
        let d = s.skip(1);
        if d.len() > 0 && all_digits(d) && -digits_val(d) >= i32::MIN {
            Some((-digits_val(d)) as i32)
        } else {
            None
        }
    } else {
        if s.len() > 0 && all_digits(s) && digits_val(s) <= i32::MAX {
            Some(digits_val(s) as i32)
        } else {
            None
        }
    }
}

/// Value of the digit run `s[start..]`, tracked against an overflow cap.
fn scan_digits(s: &Vec<char>, start: usize) -> (r: Option<u64>)
    requires
        start <= s@.len(),
    ensures
        match r {
            Some(v) => {
                &&& all_digits(s@.skip(start as int))
                &&& v == digits_val(s@.skip(start as int))
                &&& v <= 0x8000_0000
            },
            None => !all_digits(s@.skip(start as int)) || digits_val(s@.skip(start as int))
                > 0x8000_0000,
        },
{
    let ghost d = s@.skip(start as int);
    let mut acc: u64 = 0;
    let mut j: usize = start;
    while j < s.len()
        invariant
            start <= j <= s@.len(),
            d == s@.skip(start as int),
            forall|k: int| 0 <= k < j - start ==> is_digit(#[trigger] d[k]),
            acc == digits_val(d.take(j - start)),
            acc <= 0x8000_0000,
        decreases s@.len() - j,
    {
        let c = s[j];
        let cv = c as u32;
        if cv < 0x30 || cv > 0x39 {
            assert(!is_digit(d[j - start]));
            return None;
        }
        proof {
            assert(d[j - start] == s@[j as int]);
            assert(d.take(j - start + 1).drop_last() =~= d.take(j - start));
            assert(d.take(j - start + 1).last() == d[j - start]);
        }
        let digit: u64 = (cv - 0x30) as u64;
        acc = acc * 10 + digit;
        j += 1;
        if acc > 0x8000_0000 {
            proof {
                assert(d.take(j - start) =~= s@.skip(start as int).take(j - start));
                if all_digits(d) {
                    lemma_digits_val_prefix_le(d, j - start);
                }
            }
            return None;
        }
    }
    proof {
        assert(d.take(j - start) =~= d);
    }
    Some(acc)
}

/// Parse a decimal 32-bit integer, exactly as `spec_parse_i32` says.
pub fn parse_i32(s: &Vec<char>) -> (r: Option<i32>)
    ensures
        r == spec_parse_i32(s@),
{
    if s.len() == 0 {
        return None;
    }
    let neg = s[0] == '-';
    let start: usize = if neg {
        1
    } else {
        0
    };
    if s.len() == start {
        return None;
    }
    match scan_digits(s, start) {
        None => {
            proof {
                if !neg {
                    assert(s@.skip(0) =~= s@);
                }
            }
            None
        },
        Some(v) => {
            proof {
                if !neg {
                    assert(s@.skip(0) =~= s@);
                }
            }
            if neg {
                if v == 0x8000_0000 {
                    Some(i32::MIN)
                } else {
                    Some(-(v as i32))
                }
            } else {
                if v <= 0x7FFF_FFFF {
                    Some(v as i32)
                } else {
                    None
                }
            }
        },
    }
}

/// Ten to the given power.
pub open spec fn pow10(n: nat) -> int
    decreases n,
{
    if n == 0 {
        1
    } else {
        10 * pow10((n - 1) as nat)
    }
}

/// A digit string of `n` digits has a value below ten to the `n`.
pub proof fn lemma_digits_val_upper(s: Seq<char>)
    requires
        all_digits(s),
    ensures
        digits_val(s) < pow10(s.len()),
    decreases s.len(),
{
    if s.len() == 0 {
    } else {
        assert(all_digits(s.drop_last()));
        lemma_digits_val_upper(s.drop_last());
        assert(is_digit(s.last()));
        assert(digit_val(s.last()) <= 9);
    }
}

/// Parsing of the fixed calendar pattern: two digits of month, "/", two
/// digits of day, "/", four digits of year, and the date must exist on the
/// calendar.
pub open spec fn spec_parse_date(s: Seq<char>) -> Option<Date> {
    if s.len() == 10 && all_digits(s.subrange(0, 2)) && s[2] == '/' && all_digits(
        s.subrange(3, 5),
    ) && s[5] == '/' && all_digits(s.subrange(6, 10)) {
        let m = digits_val(s.subrange(0, 2));
        let d = digits_val(s.subrange(3, 5));
        let y = digits_val(s.subrange(6, 10));
        if 1 <= m <= 12 && 1 <= d <= days_in_month(y, m) {
            Some(Date { year: y as u16, month: m as u8, day: d as u8 })
        } else {
            None
        }
    } else {
        None
    }
}

/// Value of the two-digit run at `i`, when both characters are digits.
fn two_digits(s: &Vec<char>, i: usize) -> (r: Option<u32>)
    requires
        i + 2 <= s@.len(),
    ensures
        match r {
            Some(v) => all_digits(s@.subrange(i as int, i + 2)) && v == digits_val(
                s@.subrange(i as int, i + 2),
            ) && v < 100,
            None => !all_digits(s@.subrange(i as int, i + 2)),
        },
{
    let n = s.len();
    let c0 = s[i] as u32;
    let c1 = s[i + 1] as u32;
    let ghost part = s@.subrange(i as int, i + 2);
    proof {
        reveal_with_fuel(digits_val, 3);
        assert(part[0] == s@[i as int]);
        assert(part[1] == s@[i + 1]);
        assert(part.drop_last() =~= s@.subrange(i as int, i + 1));
        assert(part.drop_last().drop_last() =~= Seq::<char>::empty());
        assert(part.drop_last().last() == part[0]);
        assert(part.last() == part[1]);
    }
    if 0x30 <= c0 && c0 <= 0x39 && 0x30 <= c1 && c1 <= 0x39 {
        proof {
            assert(digits_val(part.drop_last()) == digit_val(part[0]));
            assert(digits_val(part) == digit_val(part[0]) * 10 + digit_val(part[1]));
        }
        Some((c0 - 0x30) * 10 + (c1 - 0x30))
    } else {
        None
    }
}

/// Parse a date of the fixed pattern, exactly as `spec_parse_date` says.
pub fn parse_date(s: &Vec<char>) -> (r: Option<Date>)
    ensures
        r == spec_parse_date(s@),
{
    if s.len() != 10 {
        return None;
    }
    if !(s[2] == '/' && s[5] == '/') {
        return None;
    }
    let m = match two_digits(s, 0) {
        Some(v) => v,
        None => {
            return None;
        },
    };
    let d = match two_digits(s, 3) {
        Some(v) => v,
        None => {
            return None;
        },
    };
    let yh = match two_digits(s, 6) {
        Some(v) => v,
        None => {
            return None;
        },
    };
    let yl = match two_digits(s, 8) {
        Some(v) => v,
        None => {
            proof {
                let ys = s@.subrange(6, 10);
                let tail = s@.subrange(8, 10);
                if all_digits(ys) {
                    assert forall|k: int| 0 <= k < tail.len() implies is_digit(
                        #[trigger] tail[k],
                    ) by {
                        assert(tail[k] == ys[k + 2]);
                    }
                    assert(all_digits(tail));
                }
            }
            return None;
        },
    };
    let y = yh * 100 + yl;
    let ghost ys = s@.subrange(6, 10);
    proof {
        reveal_with_fuel(digits_val, 5);
        assert(ys.drop_last() =~= s@.subrange(6, 9));
        assert(ys.drop_last().drop_last() =~= s@.subrange(6, 8));
        assert(s@.subrange(6, 9).last() == s@[8]);
        assert(s@.subrange(8, 10)[0] == s@[8]);
        assert(s@.subrange(8, 10)[1] == s@[9]);
        assert(s@.subrange(8, 10).drop_last() =~= s@.subrange(8, 9));
        assert(s@.subrange(8, 9).drop_last() =~= Seq::<char>::empty());
        assert(s@.subrange(6, 8).drop_last() =~= s@.subrange(6, 7));
        assert(s@.subrange(6, 7).drop_last() =~= Seq::<char>::empty());
        assert(digits_val(ys) == yh * 100 + yl);
    }
    if m < 1 || m > 12 {
        return None;
    }
    let dim = days_in_month_exec(y, m);
    if d < 1 || d > dim {
        return None;
    }
    Some(Date { year: y as u16, month: m as u8, day: d as u8 })
}

/// Number of days of month `m` in year `y`.
pub fn days_in_month_exec(y: u32, m: u32) -> (r: u32)
    requires
        1 <= m <= 12,
    ensures
        r == days_in_month(y as int, m as int),
{
    if m == 2 {
        if (y % 4 == 0) && (y % 100 != 0 || y % 400 == 0) {
            29
        } else {
            28
        }
    } else if m == 4 || m == 6 || m == 9 || m == 11 {
        30
    } else {
        31
    }
}

/// Non-strict reinterpretation of one cell under a target type.  An absent
/// value stays absent; a textual value is parsed, degrading to null when it
/// does not parse; a value already of the target type is kept; any other
/// value has no textual form to reinterpret and degrades to null.
pub open spec fn spec_coerce_cell(c: CellView, t: ColumnType) -> CellView {
    match c {
        CellView::Null => CellView::Null,
        CellView::Text(s) => match t {
            ColumnType::Text => CellView::Text(s),
            ColumnType::Int => match spec_parse_i32(s) {
                Some(i) => CellView::Int(i as int),
                None => CellView::Null,
            },
            ColumnType::Date => match spec_parse_date(s) {
                Some(d) => CellView::Date(d),
                None => CellView::Null,
            },
        },
        CellView::Int(i) => if t == ColumnType::Int {
            CellView::Int(i)
        } else {
            CellView::Null
        },
        CellView::Date(d) => if t == ColumnType::Date {
            CellView::Date(d)
        } else {
            CellView::Null
        },
    }
}

/// Coerce one cell, exactly as `spec_coerce_cell` says.
pub fn coerce_cell(c: &CellValue, t: ColumnType) -> (r: CellValue)
    ensures
        r@ == spec_coerce_cell(c@, t),
{
    match c {
        CellValue::Null => CellValue::Null,
        CellValue::Text(s) => match t {
            ColumnType::Text => CellValue::Text(s.clone()),
            ColumnType::Int => match parse_i32(s) {
                Some(i) => CellValue::Int(i),
                None => CellValue::Null,
            },
            ColumnType::Date => match parse_date(s) {
                Some(d) => CellValue::Date(d),
                None => CellValue::Null,
            },
        },
        CellValue::Int(i) => if t == ColumnType::Int {
            CellValue::Int(*i)
        } else {
            CellValue::Null
        },
        CellValue::Date(d) => if t == ColumnType::Date {
            CellValue::Date(*d)
        } else {
            CellValue::Null
        },
    }
}

/// A present cell that already matches the target type is kept as it is:
/// only a textual value reinterpreted under a narrower type can degrade.
pub proof fn lemma_coerce_identity(c: CellView, t: ColumnType)
    requires
        crate::table::cell_matches(c, t),
        !(c is Null),
    ensures
        spec_coerce_cell(c, t) == c,
{
}

/// A coerced cell matches the target type: present values parse under it.
pub proof fn lemma_coerce_matches(c: CellView, t: ColumnType)
    requires
        c matches CellView::Int(i) ==> i32::MIN <= i <= i32::MAX,
        c matches CellView::Date(d) ==> valid_date(d),
    ensures
        crate::table::cell_matches(spec_coerce_cell(c, t), t),
{
    match c {
        CellView::Text(s) => {
            if t == ColumnType::Date {
                match spec_parse_date(s) {
                    Some(d) => {
                        let ys = s.subrange(6, 10);
                        assert(all_digits(ys));
                        lemma_digits_val_upper(ys);
                        reveal_with_fuel(pow10, 5);
                        assert(pow10(4) == 10000);
                        assert(0 <= digits_val(ys) < 10000) by {
                            lemma_digits_val_nonneg(ys);
                        }
                        assert(valid_date(d));
                    },
                    None => {},
                }
            }
        },
        _ => {},
    }
}

} // verus!
