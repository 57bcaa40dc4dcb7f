//! Cells, rows and sheets as the reader hands them over, and the rule that
//! tells a cell without data from one that carries some.

use crate::text::{
    contains_text, from_chars, header_has_words, normal_words, spec_contains, spec_normal,
    spec_texts, spec_trim, to_chars, trim_bounds,
};
use vstd::prelude::*;

verus! {

/// A number with a fraction, kept as the bits of its 64-bit binary form
/// together with the text that stands for it.
#[derive(Debug, PartialEq, Eq)]
pub struct Fraction {
    pub bits: u64,
    pub text: String,
}

/// The value of one cell.
#[derive(Debug, PartialEq, Eq)]
pub enum Cell {
    Int(i64),
    Float(Fraction),
    Text(String),
    Bool(bool),
    /// A date or time as a serial number, by the bits of its binary form.
    DateTime(u64),
    DateTimeIso(String),
    DurationIso(String),
    Error,
    Empty,
}

/// One sheet of a file: its name and its rows, top to bottom.
#[derive(Debug, PartialEq, Eq)]
pub struct Sheet {
    pub name: String,
    pub rows: Vec<Vec<Cell>>,
}

/// One file: its sheets in reading order.
#[derive(Debug, PartialEq, Eq)]
pub struct Book {
    pub sheets: Vec<Sheet>,
}

/// What is known of one column of one sheet of one file.
#[derive(Debug, Clone, Copy, PartialEq, Eq, Structural)]
pub struct ColumnInfo {
    pub index: u16,
    pub always_filled: bool,
    pub single_valued: bool,
    pub non_empty_count: u32,
}

impl Clone for Fraction {
    fn clone(&self) -> (r: Fraction)
        ensures
            r == *self,
    {
        Fraction { bits: self.bits, text: self.text.clone() }
    }
}

impl Clone for Cell {
    fn clone(&self) -> (r: Cell)
        ensures
            r == *self,
    {
        match self {
            Cell::Int(v) => Cell::Int(*v),
            Cell::Float(v) => Cell::Float(v.clone()),
            Cell::Text(v) => Cell::Text(v.clone()),
            Cell::Bool(v) => Cell::Bool(*v),
            Cell::DateTime(v) => Cell::DateTime(*v),
            Cell::DateTimeIso(v) => Cell::DateTimeIso(v.clone()),
            Cell::DurationIso(v) => Cell::DurationIso(v.clone()),
            Cell::Error => Cell::Error,
            Cell::Empty => Cell::Empty,
        }
    }
}

/// The character of the decimal digit `d`.
pub open spec fn spec_digit(d: nat) -> char {
    if d == 0 {
        '0'
    } else if d == 1 {
        '1'
    } else if d == 2 {
        '2'
    } else if d == 3 {
        '3'
    } else if d == 4 {
        '4'
    } else if d == 5 {
        '5'
    } else if d == 6 {
        '6'
    } else if d == 7 {
        '7'
    } else if d == 8 {
        '8'
    } else {
        '9'
    }
}

/// The decimal digits of `n`, the highest first, without leading zeros.
pub open spec fn spec_digits(n: nat) -> Seq<char>
    decreases n,
{
    if n < 10 {
        seq![spec_digit(n)]
    } else {
        spec_digits(n / 10).push(spec_digit(n % 10))
    }
}

/// The decimal text of `v`: a minus sign if it is negative, and the digits
/// of its magnitude.
pub open spec fn spec_int_text(v: i64) -> Seq<char> {
    if v < 0 {
        seq!['-'] + spec_digits((-v) as nat)
    } else {
        spec_digits(v as nat)
    }
}

/// The character of the decimal digit `d`.
fn digit(d: u64) -> (c: char)
    requires
        d < 10,
    ensures
        c == spec_digit(d as nat),
{
    if d == 0 {
        '0'
    } else if d == 1 {
        '1'
    } else if d == 2 {
        '2'
    } else if d == 3 {
        '3'
    } else if d == 4 {
        '4'
    } else if d == 5 {
        '5'
    } else if d == 6 {
        '6'
    } else if d == 7 {
        '7'
    } else if d == 8 {
        '8'
    } else {
        '9'
    }
}

/// Puts the decimal digits of `n` at the end of `out`.
fn push_digits(out: &mut Vec<char>, n: u64)
    ensures
        final(out)@ == old(out)@ + spec_digits(n as nat),
    decreases n,
{
    if n < 10 {
        out.push(digit(n));
        assert(out@ =~= old(out)@ + spec_digits(n as nat));
    } else {
        push_digits(out, n / 10);
        out.push(digit(n % 10));
        assert(out@ =~= old(out)@ + spec_digits(n as nat));
    }
}

/// The decimal text of `v`.
pub fn int_text(v: i64) -> (r: String)
    ensures
        r@ == spec_int_text(v),
{
    let mut chars: Vec<char> = Vec::new();
    if v < 0 {
        chars.push('-');
        // The magnitude of the least number is one more than the greatest.
        let magnitude: u64 = (-(v + 1)) as u64 + 1;
        push_digits(&mut chars, magnitude);
    } else {
        push_digits(&mut chars, v as u64);
    }
    assert(chars@ =~= spec_int_text(v));
    assert(chars@.subrange(0, chars.len() as int) == chars@);
    from_chars(&chars, 0, chars.len())
}

/// The text that stands for a cell, for the kinds of cell that have one: a
/// whole number, a number with a fraction, and a text.
pub open spec fn spec_cell_text(c: Cell) -> Option<Seq<char>> {
    match c {
        Cell::Int(v) => Some(spec_int_text(v)),
        Cell::Float(v) => Some(v.text@),
        Cell::Text(v) => Some(v@),
        _ => None,
    }
}

/// The text that stands for a cell, where it has one.
pub fn cell_text(c: &Cell) -> (r: Option<String>)
    ensures
        match r {
            Some(t) => spec_cell_text(*c) == Some(t@),
            None => spec_cell_text(*c) is None,
        },
{
    match c {
        Cell::Int(v) => Some(int_text(*v)),
        Cell::Float(v) => Some(v.text.clone()),
        Cell::Text(v) => Some(v.clone()),
        _ => None,
    }
}

/// Whether the cell is the number zero: the whole number 0, or a number
/// with a fraction whose bits say zero, with either sign.
pub open spec fn spec_is_zero(c: Cell) -> bool {
    match c {
        Cell::Int(v) => v == 0,
        Cell::Float(v) => v.bits == 0 || v.bits == 0x8000_0000_0000_0000,
        _ => false,
    }
}

/// The text `0`.
pub open spec fn spec_zero_text() -> Seq<char> {
    seq!['0']
}

/// The mark that a spreadsheet leaves where a formula divided by zero.
pub open spec fn spec_division_mark() -> Seq<char> {
    seq!['#', 'D', 'I', 'V', '/', '0', '!']
}

/// Whether a text says nothing: trimmed it is empty or `0`, or it holds the
/// mark of a division by zero.
pub open spec fn spec_text_is_void(t: Seq<char>) -> bool {
    spec_trim(t).len() == 0 || spec_trim(t) == spec_zero_text() || spec_contains(
        t,
        spec_division_mark(),
    )
}

/// Whether a column is a placeholder: it holds one value throughout, is
/// filled in every row, and yet has not exactly one cell that is not empty.
pub open spec fn spec_is_placeholder(info: ColumnInfo) -> bool {
    info.single_valued && info.always_filled && info.non_empty_count != 1
}

/// Whether a cell carries no data: it is empty, it is the number zero, its
/// text says nothing, or its column is a placeholder.
pub open spec fn spec_vacio(data: Cell, col_info: ColumnInfo) -> bool {
    data is Empty || spec_is_zero(data) || (spec_cell_text(data) is Some && spec_text_is_void(
        spec_cell_text(data)->0,
    )) || spec_is_placeholder(col_info)
}

/// Whether a text says nothing.
pub fn text_is_void(t: &str) -> (r: bool)
    ensures
        r == spec_text_is_void(t@),
{
    let v = to_chars(t);
    let (i, j) = trim_bounds(&v, 0, v.len());
    assert(v@.subrange(0, v.len() as int) == v@);
    if i == j {
        return true;
    }
    if j - i == 1 && v[i] == '0' {
        assert(v@.subrange(i as int, j as int) =~= spec_zero_text());
        return true;
    }
    assert(spec_trim(t@) != spec_zero_text()) by {
        let trimmed = v@.subrange(i as int, j as int);
        if trimmed == spec_zero_text() {
            assert(trimmed.len() == spec_zero_text().len());
            assert(trimmed[0] == spec_zero_text()[0]);
        }
    }
    let mark: Vec<char> = vec!['#', 'D', 'I', 'V', '/', '0', '!'];
    assert(mark@ =~= spec_division_mark());
    contains_text(&v, &mark)
}

/// Whether a cell carries no data, given what is known of its column.
pub fn vacio(data: &Cell, col_info: &ColumnInfo) -> (r: bool)
    ensures
        r == spec_vacio(*data, *col_info),
{
    if col_info.single_valued && col_info.always_filled && col_info.non_empty_count != 1 {
        return true;
    }
    match data {
        Cell::Empty => true,
        Cell::Int(v) => *v == 0 || text_is_void(int_text(*v).as_str()),
        Cell::Float(v) => v.bits == 0 || v.bits == 0x8000_0000_0000_0000 || text_is_void(
            v.text.as_str(),
        ),
        Cell::Text(v) => text_is_void(v.as_str()),
        _ => false,
    }
}

/// The cell at place `i` of a row; beyond the end of the row cells are empty.
pub open spec fn spec_cell_at(row: Seq<Cell>, i: int) -> Cell {
    if 0 <= i < row.len() {
        row[i]
    } else {
        Cell::Empty
    }
}

/// Whether a row counts: it has a first cell, and that cell is not empty.
pub open spec fn spec_usable(row: Seq<Cell>) -> bool {
    row.len() > 0 && !(row[0] is Empty)
}

/// Whether a row counts.
pub fn usable(row: &Vec<Cell>) -> (r: bool)
    ensures
        r == spec_usable(row@),
{
    row.len() > 0 && !matches!(row[0], Cell::Empty)
}

/// The places of the rows that count among the first `n` rows, in order.
pub open spec fn spec_usable_rows(rows: Seq<Vec<Cell>>, n: nat) -> Seq<usize>
    decreases n,
{
    if n == 0 {
        Seq::empty()
    } else if spec_usable(rows[n - 1]@) {
        spec_usable_rows(rows, (n - 1) as nat).push((n - 1) as usize)
    } else {
        spec_usable_rows(rows, (n - 1) as nat)
    }
}

/// The places of the rows that count, in order. The first of them is the
/// header row of the sheet, the others are its data rows.
pub fn usable_rows(rows: &Vec<Vec<Cell>>) -> (places: Vec<usize>)
    ensures
        places@ == spec_usable_rows(rows@, rows.len() as nat),
{
    let mut places: Vec<usize> = Vec::new();
    let mut i: usize = 0;
    while i < rows.len()
        invariant
            i <= rows.len(),
            places@ == spec_usable_rows(rows@, i as nat),
        decreases rows.len() - i,
    {
        if usable(&rows[i]) {
            places.push(i);
        }
        i += 1;
    }
    places
}

/// The places of the rows that count are places of rows, in rising order,
/// and every row that counts is among them.
pub proof fn lemma_usable_rows(rows: Seq<Vec<Cell>>, n: nat)
    requires
        n <= rows.len() <= usize::MAX,
    ensures
        spec_usable_rows(rows, n).len() <= n,
        forall|k: int|
            0 <= k < spec_usable_rows(rows, n).len() ==> (#[trigger] spec_usable_rows(rows, n)[k])
                < n && spec_usable(rows[spec_usable_rows(rows, n)[k] as int]@),
        forall|k: int, l: int|
            0 <= k < l < spec_usable_rows(rows, n).len() ==> (#[trigger] spec_usable_rows(
                rows,
                n,
            )[k]) < (#[trigger] spec_usable_rows(rows, n)[l]),
        forall|r: int|
            0 <= r < n && spec_usable(#[trigger] rows[r]@) ==> spec_usable_rows(rows, n).contains(
                r as usize,
            ),
    decreases n,
{
    if n > 0 {
        let before = spec_usable_rows(rows, (n - 1) as nat);
        let now = spec_usable_rows(rows, n);
        lemma_usable_rows(rows, (n - 1) as nat);
        assert forall|k: int| 0 <= k < now.len() implies (#[trigger] now[k]) < n && spec_usable(
            rows[now[k] as int]@,
        ) by {
            if k < before.len() {
                assert(now[k] == before[k]);
            }
        }
        assert forall|k: int, l: int| 0 <= k < l < now.len() implies (#[trigger] now[k]) < (
        #[trigger] now[l]) by {
            assert(now[k] == before[k]);
            if l < before.len() {
                assert(now[l] == before[l]);
            }
        }
        assert forall|r: int| 0 <= r < n && spec_usable(#[trigger] rows[r]@) implies now.contains(
            r as usize,
        ) by {
            if r < n - 1 {
                let k = choose|k: int| 0 <= k < before.len() && before[k] == r as usize;
                assert(now[k] == r as usize);
            } else {
                assert(now[now.len() - 1] == r as usize);
            }
        }
    }
}

/// The place of the first of `sheets` from `from` on whose name is `name`
/// once case and spacing are set aside, if there is one.
pub open spec fn spec_sheet_named(sheets: Seq<Sheet>, name: Seq<char>, from: int) -> Option<int>
    decreases sheets.len() - from,
{
    if from < 0 || from >= sheets.len() {
        None
    } else if spec_normal(sheets[from].name@) == spec_normal(name) {
        Some(from)
    } else {
        spec_sheet_named(sheets, name, from + 1)
    }
}

/// The place of the first of `sheets` whose name is `name` once case and
/// spacing are set aside, if there is one. Of several sheets of a file that
/// are named alike in this way, it is the first that counts.
pub fn sheet_named(sheets: &Vec<Sheet>, name: &str) -> (r: Option<usize>)
    ensures
        match r {
            Some(i) => i < sheets.len() && spec_sheet_named(sheets@, name@, 0) == Some(i as int),
            None => spec_sheet_named(sheets@, name@, 0) is None,
        },
{
    let wanted = normal_words(name);
    let mut i: usize = 0;
    while i < sheets.len()
        invariant
            i <= sheets.len(),
            spec_texts(wanted@) == spec_normal(name@),
            spec_sheet_named(sheets@, name@, 0) == spec_sheet_named(sheets@, name@, i as int),
        decreases sheets.len() - i,
    {
        if header_has_words(&wanted, sheets[i].name.as_str()) {
            return Some(i);
        }
        i += 1;
    }
    None
}

/// The sheet found under a name has that name once case and spacing are
/// set aside, and no sheet from `from` up to it has; where none is found,
/// no sheet from `from` on has it.
pub proof fn lemma_sheet_named(sheets: Seq<Sheet>, name: Seq<char>, from: int)
    requires
        0 <= from,
    ensures
        match spec_sheet_named(sheets, name, from) {
            Some(k) => from <= k < sheets.len() && spec_normal(sheets[k].name@) == spec_normal(
                name,
            ) && forall|j: int|
                from <= j < k ==> spec_normal((#[trigger] sheets[j]).name@) != spec_normal(name),
            None => forall|j: int|
                from <= j < sheets.len() ==> spec_normal((#[trigger] sheets[j]).name@)
                    != spec_normal(name),
        },
    decreases sheets.len() - from,
{
    if from < sheets.len() && spec_normal(sheets[from].name@) != spec_normal(name) {
        lemma_sheet_named(sheets, name, from + 1);
    }
}

/// Names that are the same once case and spacing are set aside find the
/// same sheet.
pub proof fn lemma_sheet_named_alike(sheets: Seq<Sheet>, a: Seq<char>, b: Seq<char>, from: int)
    requires
        spec_normal(a) == spec_normal(b),
    ensures
        spec_sheet_named(sheets, a, from) == spec_sheet_named(sheets, b, from),
    decreases sheets.len() - from,
{
    if 0 <= from < sheets.len() && spec_normal(sheets[from].name@) != spec_normal(a) {
        lemma_sheet_named_alike(sheets, a, b, from + 1);
    }
}

} // verus!
