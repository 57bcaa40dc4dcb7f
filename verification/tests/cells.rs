use concentra::columns::{column_info, filled, rendering};
use concentra::consolidate::discardable;
use concentra::headers::Column;
use concentra::sheets::{
    cell_text, int_text, text_is_void, usable, usable_rows, vacio, Cell, ColumnInfo, Fraction,
};

fn text(s: &str) -> Cell {
    Cell::Text(s.to_string())
}

fn fraction(bits: u64, s: &str) -> Cell {
    Cell::Float(Fraction { bits, text: s.to_string() })
}

fn plain(index: u16) -> ColumnInfo {
    ColumnInfo { index, always_filled: false, single_valued: false, non_empty_count: 2 }
}

fn column(name: &str, info: ColumnInfo) -> Column {
    Column { name: name.to_string(), info }
}

#[test]
fn empty_cells_and_zeros_carry_no_data() {
    let info = plain(0);
    assert!(vacio(&Cell::Empty, &info));
    assert!(vacio(&Cell::Int(0), &info));
    assert!(vacio(&fraction(0, "0"), &info));
    assert!(vacio(&fraction(0x8000_0000_0000_0000, "-0"), &info));
    assert!(vacio(&text("0"), &info));
    assert!(vacio(&text("  0\t"), &info));
    assert!(vacio(&text(""), &info));
    assert!(vacio(&text(" \n "), &info));
    assert!(vacio(&text("#DIV/0!"), &info));
    assert!(vacio(&text("=A1/B1 #DIV/0! aqui"), &info));
}

#[test]
fn cells_with_values_carry_data() {
    let info = plain(0);
    assert!(!vacio(&Cell::Int(7), &info));
    assert!(!vacio(&Cell::Int(-1), &info));
    assert!(!vacio(&Cell::Int(10), &info));
    // 1.5 as bits.
    assert!(!vacio(&fraction(0x3ff8_0000_0000_0000, "1.5"), &info));
    assert!(!vacio(&text("Ana"), &info));
    assert!(!vacio(&text("00"), &info));
    assert!(!vacio(&text("0 0"), &info));
    assert!(!vacio(&text("#DIV/0"), &info));
    assert!(!vacio(&Cell::Bool(false), &info));
    assert!(!vacio(&Cell::DateTime(0), &info));
    assert!(!vacio(&Cell::DateTimeIso(String::new()), &info));
    assert!(!vacio(&Cell::DurationIso("0".to_string()), &info));
    assert!(!vacio(&Cell::Error, &info));
}

#[test]
fn cells_of_a_placeholder_column_carry_no_data() {
    let placeholder =
        ColumnInfo { index: 0, always_filled: true, single_valued: true, non_empty_count: 5 };
    assert!(vacio(&text("Campus Norte"), &placeholder));
    assert!(vacio(&Cell::Int(7), &placeholder));
    assert!(vacio(&Cell::Bool(true), &placeholder));
    let none = ColumnInfo { non_empty_count: 0, ..placeholder };
    assert!(vacio(&text("Campus Norte"), &none));
    // Exactly one cell that is not empty: no placeholder.
    let one = ColumnInfo { non_empty_count: 1, ..placeholder };
    assert!(!vacio(&text("Campus Norte"), &one));
    let not_filled = ColumnInfo { always_filled: false, ..placeholder };
    assert!(!vacio(&text("Campus Norte"), &not_filled));
    let many_values = ColumnInfo { single_valued: false, ..placeholder };
    assert!(!vacio(&text("Campus Norte"), &many_values));
}

#[test]
fn texts_that_say_nothing() {
    assert!(text_is_void(""));
    assert!(text_is_void("0"));
    assert!(text_is_void("\u{a0}0\u{a0}"));
    assert!(text_is_void("x#DIV/0!x"));
    assert!(!text_is_void("0.0"));
    assert!(!text_is_void("o"));
    assert!(!text_is_void("#div/0!"));
}

#[test]
fn only_numbers_and_texts_have_a_text() {
    assert_eq!(cell_text(&Cell::Int(-42)), Some("-42".to_string()));
    assert_eq!(cell_text(&fraction(0x3ff8_0000_0000_0000, "1.5")), Some("1.5".to_string()));
    assert_eq!(cell_text(&text("Ana")), Some("Ana".to_string()));
    assert_eq!(cell_text(&Cell::Bool(true)), None);
    assert_eq!(cell_text(&Cell::DateTime(1)), None);
    assert_eq!(cell_text(&Cell::DateTimeIso("2024-01-01".to_string())), None);
    assert_eq!(cell_text(&Cell::DurationIso("PT1H".to_string())), None);
    assert_eq!(cell_text(&Cell::Error), None);
    assert_eq!(cell_text(&Cell::Empty), None);
}

#[test]
fn rows_count_by_their_first_cell() {
    assert!(usable(&vec![text("a")]));
    assert!(usable(&vec![text(""), Cell::Empty]));
    assert!(usable(&vec![Cell::Error]));
    assert!(!usable(&vec![Cell::Empty, text("a")]));
    assert!(!usable(&vec![]));
    let rows = vec![
        vec![Cell::Empty, text("titulo")],
        vec![text("Nombre"), text("Edad")],
        vec![],
        vec![text("Ana"), Cell::Int(30)],
        vec![Cell::Empty, Cell::Int(1)],
        vec![Cell::Int(0)],
    ];
    assert_eq!(usable_rows(&rows), vec![1, 3, 5]);
    assert_eq!(usable_rows(&Vec::new()), Vec::<usize>::new());
}

#[test]
fn values_are_told_apart_by_words_in_lower_case() {
    assert_eq!(rendering(&text("  Campus\t NORTE \n")), "campus norte");
    assert_eq!(rendering(&text("campus norte")), "campus norte");
    assert_eq!(rendering(&Cell::Int(12)), "12");
    assert_eq!(rendering(&fraction(0x3ff8_0000_0000_0000, "1.5")), "1.5");
    assert_eq!(rendering(&Cell::Bool(true)), "");
    assert_eq!(rendering(&Cell::Empty), "");
    assert_eq!(rendering(&text("   ")), "");
}

#[test]
fn filled_cells_have_a_text_that_is_more_than_whitespace() {
    assert!(filled(&text("a")));
    assert!(filled(&text(" a\t")));
    assert!(filled(&Cell::Int(0)));
    assert!(filled(&fraction(0x3ff8_0000_0000_0000, "1.5")));
    assert!(!filled(&text(" ")));
    assert!(!filled(&text("  ")));
    assert!(!filled(&text("\u{a0}\n")));
    assert!(!filled(&text("")));
    assert!(!filled(&Cell::Empty));
    assert!(!filled(&Cell::Bool(true)));
    assert!(!filled(&Cell::Error));
    assert!(!filled(&fraction(0, "")));
}

#[test]
fn column_statistics() {
    let rows = vec![
        vec![text("Nombre"), text("Campus"), text("Nota"), text("Vacia")],
        vec![text("Ana"), text("Norte"), Cell::Int(8), Cell::Empty],
        vec![Cell::Empty, text("fuera"), Cell::Int(1), Cell::Empty],
        vec![text("Luis"), text(" NORTE "), Cell::Empty, Cell::Empty],
        vec![text("Eva"), text("norte"), Cell::Int(9)],
    ];
    let data: Vec<usize> = vec![1, 3, 4];
    assert_eq!(
        column_info(&rows, &data, 0),
        ColumnInfo { index: 0, always_filled: true, single_valued: false, non_empty_count: 3 }
    );
    assert_eq!(
        column_info(&rows, &data, 1),
        ColumnInfo { index: 1, always_filled: true, single_valued: true, non_empty_count: 3 }
    );
    assert_eq!(
        column_info(&rows, &data, 2),
        ColumnInfo { index: 2, always_filled: false, single_valued: false, non_empty_count: 2 }
    );
    // All cells empty, the last row too short: one value, the empty text.
    assert_eq!(
        column_info(&rows, &data, 3),
        ColumnInfo { index: 3, always_filled: false, single_valued: true, non_empty_count: 0 }
    );
    // Beyond every row.
    assert_eq!(
        column_info(&rows, &data, 9),
        ColumnInfo { index: 9, always_filled: false, single_valued: true, non_empty_count: 0 }
    );
    // Without data rows a column is filled throughout and has no value.
    assert_eq!(
        column_info(&rows, &[], 0),
        ColumnInfo { index: 0, always_filled: true, single_valued: false, non_empty_count: 0 }
    );
}

#[test]
fn a_row_is_set_apart_if_all_its_cells_under_headers_carry_no_data() {
    let header = vec![text("Nombre"), Cell::Empty, text("Nota"), text("Sin columna")];
    let columns = vec![column("Nombre", plain(0)), column("Nota", plain(2))];
    // Every cell under a header that counts is void.
    assert!(discardable(
        &vec![text(""), text("no cuenta"), Cell::Int(0), text("tampoco")],
        &header,
        &columns
    ));
    assert!(discardable(&vec![], &header, &columns));
    assert!(discardable(&vec![text("0")], &header, &columns));
    // One cell with data is enough to keep the row.
    assert!(!discardable(
        &vec![text(""), Cell::Empty, Cell::Int(7), Cell::Empty],
        &header,
        &columns
    ));
    assert!(!discardable(&vec![text("Ana")], &header, &columns));
    // Without headers that count every row is set apart.
    assert!(discardable(&vec![text("Ana")], &header, &Vec::new()));
    assert!(discardable(&vec![text("Ana")], &Vec::new(), &columns));
}

#[test]
fn a_row_of_columns_that_hold_only_zero_is_set_apart() {
    let header = vec![text("A"), text("B")];
    let rows = vec![
        header.clone(),
        vec![text("0"), text("0")],
        vec![text("0"), text("0")],
        vec![text("0"), text("0")],
    ];
    let data: Vec<usize> = vec![1, 2, 3];
    let a = column_info(&rows, &data, 0);
    let b = column_info(&rows, &data, 1);
    for r in 1..4 {
        assert!(vacio(&rows[r][0], &a));
        assert!(vacio(&rows[r][1], &b));
    }
    let columns = vec![column("A", a), column("B", b)];
    for r in 1..4 {
        assert!(discardable(&rows[r], &header, &columns));
    }
    // Also where the statistics say nothing of the column.
    assert!(vacio(&text("0"), &plain(0)));
}

#[test]
fn a_row_is_set_apart_exactly_if_no_cell_under_a_header_carries_data() {
    // All rows of three cells over a small set of values, against the rule
    // written out cell by cell.
    let values = vec![
        Cell::Empty,
        Cell::Int(0),
        Cell::Int(3),
        text("0"),
        text("x"),
        text(" "),
        Cell::Bool(false),
        Cell::Error,
    ];
    let header = vec![text("A"), Cell::Int(5), Cell::Bool(true)];
    let placeholder =
        ColumnInfo { index: 1, always_filled: true, single_valued: true, non_empty_count: 4 };
    let columns = vec![column("A", plain(0)), column("5", placeholder)];
    let infos = [Some(plain(0)), Some(placeholder), None];
    for a in &values {
        for b in &values {
            for c in &values {
                let row = vec![a.clone(), b.clone(), c.clone()];
                let mut expected = true;
                for (cell, info) in row.iter().zip(infos.iter()) {
                    if let Some(info) = info {
                        expected = expected && vacio(cell, info);
                    }
                }
                assert_eq!(discardable(&row, &header, &columns), expected);
            }
        }
    }
}

#[test]
fn whole_numbers_are_written_in_decimal() {
    assert_eq!(int_text(0), "0");
    assert_eq!(int_text(7), "7");
    assert_eq!(int_text(10), "10");
    assert_eq!(int_text(-1), "-1");
    assert_eq!(int_text(1234567890), "1234567890");
    assert_eq!(int_text(i64::MAX), "9223372036854775807");
    assert_eq!(int_text(i64::MIN), "-9223372036854775808");
    for v in [-1000i64, -999, -101, -100, -10, -9, 9, 99, 100, 1009, 20240] {
        assert_eq!(int_text(v), v.to_string());
    }
}

#[test]
fn a_column_with_a_blank_text_is_not_filled_throughout() {
    let rows = vec![vec![text("A")], vec![text("  ")]];
    let data: Vec<usize> = vec![1];
    assert_eq!(
        column_info(&rows, &data, 0),
        ColumnInfo { index: 0, always_filled: false, single_valued: true, non_empty_count: 1 }
    );
    let rows = vec![vec![text("A")], vec![text("x")], vec![text(" ")], vec![text("x")]];
    let data: Vec<usize> = vec![1, 2, 3];
    assert!(!column_info(&rows, &data, 0).always_filled);
}
