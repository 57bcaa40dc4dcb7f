use concentra::consolidate::{
    append_block, consolidate, is_dropdown, matching_column, output_row, sources, write_cell,
    Output, OutputSheet, Written,
};
use concentra::driver::{into_groups, log_grupos, retained_groups, status_label, table_name, LogRow};
use concentra::fingerprint::headers_from_file;
use concentra::groups::{merge_groups, obtener_grupos_por_nombre, Group, PreGroup};
use concentra::headers::{extract_headers, Column};
use concentra::sheets::{sheet_named, Book, Cell, ColumnInfo, Fraction, Sheet};

fn text(s: &str) -> Cell {
    Cell::Text(s.to_string())
}

fn sheet(name: &str, rows: Vec<Vec<Cell>>) -> Sheet {
    Sheet { name: name.to_string(), rows }
}

fn column(name: &str, index: u16) -> Column {
    Column {
        name: name.to_string(),
        info: ColumnInfo { index, always_filled: false, single_valued: false, non_empty_count: 2 },
    }
}

fn people(rows: &[(&str, i64)]) -> Book {
    let mut all = vec![vec![text("Nombre"), text("Edad")]];
    for (name, age) in rows {
        all.push(vec![text(name), Cell::Int(*age)]);
    }
    Book { sheets: vec![sheet("DATOS", all)] }
}

/// Groups the files by name, merges the groups by the headers of their
/// first files, and gives the groups with their files.
fn grouped(names: &[&str], books: &[Book]) -> Vec<Group> {
    let names: Vec<Vec<u8>> = names.iter().map(|n| n.as_bytes().to_vec()).collect();
    let by_name = obtener_grupos_por_nombre(&names);
    let pre = by_name
        .into_iter()
        .map(|g| PreGroup { headers: headers_from_file(&books[g.files[0]]), key: g.key, files: g.files })
        .collect();
    into_groups(merge_groups(pre))
}

#[test]
fn files_of_one_report_are_consolidated_in_the_order_of_the_group() {
    let names = ["Reporte_24-25_A.xlsx", "Reporte_24-25_B.xlsx"];
    let books = [people(&[("Ana", 30), ("Luis", 0)]), people(&[("Eva", 25), ("", 0)])];
    let groups = grouped(&names, &books);
    // The names have no cycle at their end, so each is a key of its own;
    // the files come together because their headers are the same.
    assert_eq!(groups, vec![Group { key: b"Reporte_24-25_B".to_vec(), files: vec![1, 0] }]);
    assert_eq!(retained_groups(&groups), vec![0]);
    assert_eq!(table_name(&groups[0].key), b"Reporte_24-25_B.xlsx".to_vec());

    let [first, second] = books;
    let in_order = vec![second, first];
    let headers = extract_headers(&in_order);
    let out = consolidate(&in_order, &headers);
    assert_eq!(
        out,
        Output {
            sheets: vec![OutputSheet {
                name: "DATOS".to_string(),
                headers: vec!["Nombre".to_string(), "Edad".to_string()],
                rows: vec![
                    vec![text("Eva"), Cell::Int(25)],
                    vec![text("Ana"), Cell::Int(30)],
                    vec![text("Luis"), Cell::Int(0)],
                ],
            }],
            set_apart: vec![vec![text(""), Cell::Int(0)]],
        }
    );
}

#[test]
fn files_of_one_report_share_a_key() {
    let names = ["Reporte_NTE_24-25.xlsx", "Reporte_SUR_24-25.xlsx"];
    let books = [people(&[("Ana", 30)]), people(&[("Eva", 25)])];
    let groups = grouped(&names, &books);
    assert_eq!(groups, vec![Group { key: b"Reporte".to_vec(), files: vec![0, 1] }]);
    assert_eq!(table_name(&groups[0].key), b"Reporte.xlsx".to_vec());
    let books = books.to_vec_in_order();
    let headers = extract_headers(&books);
    let out = consolidate(&books, &headers);
    assert_eq!(out.sheets.len(), 1);
    assert_eq!(
        out.sheets[0].rows,
        vec![vec![text("Ana"), Cell::Int(30)], vec![text("Eva"), Cell::Int(25)]]
    );
    assert_eq!(out.set_apart, Vec::<Vec<Cell>>::new());
}

trait InOrder {
    fn to_vec_in_order(self) -> Vec<Book>;
}

impl InOrder for [Book; 2] {
    fn to_vec_in_order(self) -> Vec<Book> {
        let [a, b] = self;
        vec![a, b]
    }
}

#[test]
fn a_file_without_siblings_is_logged_and_not_consolidated() {
    let names = ["Reporte_NTE_24-25.xlsx", "Unico_NTE_24-25.xlsx", "Reporte_SUR_24-25.xlsx"];
    let one = |h: &str| Book { sheets: vec![sheet("Matrícula", vec![vec![text(h)], vec![text("x")]])] };
    let books = [one("Nombre"), one("Otra cosa"), one("Nombre")];
    let groups = grouped(&names, &books);
    assert_eq!(
        groups,
        vec![
            Group { key: b"Reporte".to_vec(), files: vec![0, 2] },
            Group { key: b"Unico".to_vec(), files: vec![1] },
        ]
    );
    assert_eq!(retained_groups(&groups), vec![0]);
    let log = log_grupos(&groups);
    assert_eq!(log.len(), 3);
    assert_eq!(log[2], LogRow { group: 1, included: false, file: 1 });
    assert_eq!(status_label(log[2].included), "Descartado");
    assert_eq!(status_label(log[0].included), "Incluido");
}

#[test]
fn headers_that_differ_in_spacing_fill_one_column() {
    let books = vec![
        Book {
            sheets: vec![sheet(
                "S",
                vec![vec![text("Nombre Completo")], vec![text("Ana")], vec![text("Luis")]],
            )],
        },
        Book {
            sheets: vec![sheet("S", vec![vec![text("Nombre  completo  ")], vec![text("Eva")]])],
        },
    ];
    let headers = extract_headers(&books);
    let out = consolidate(&books, &headers);
    assert_eq!(
        out.sheets,
        vec![OutputSheet {
            name: "S".to_string(),
            headers: vec!["Nombre Completo".to_string()],
            rows: vec![vec![text("Ana")], vec![text("Luis")], vec![text("Eva")]],
        }]
    );
}

#[test]
fn columns_are_joined_by_header_and_left_empty_where_a_file_has_none() {
    let books = vec![
        Book {
            sheets: vec![sheet(
                "S",
                vec![
                    vec![text("Nombre"), text("Edad")],
                    vec![text("Ana"), Cell::Int(30)],
                    vec![text("Luis"), Cell::Error],
                ],
            )],
        },
        Book {
            sheets: vec![sheet(
                "S",
                vec![
                    vec![text("Campus"), text("NOMBRE")],
                    vec![text("Norte"), text("Eva")],
                    vec![text("Sur"), Cell::Empty],
                ],
            )],
        },
    ];
    let headers = extract_headers(&books);
    let out = consolidate(&books, &headers);
    assert_eq!(
        out.sheets,
        vec![OutputSheet {
            name: "S".to_string(),
            headers: vec!["Nombre".to_string(), "Edad".to_string(), "Campus".to_string()],
            rows: vec![
                vec![text("Ana"), Cell::Int(30), Cell::Empty],
                vec![text("Luis"), Cell::Error, Cell::Empty],
                vec![text("Eva"), Cell::Empty, text("Norte")],
                vec![Cell::Empty, Cell::Empty, text("Sur")],
            ],
        }]
    );
    assert_eq!(out.set_apart, Vec::<Vec<Cell>>::new());
}

#[test]
fn a_file_that_gives_no_row_leaves_no_gap() {
    let books = vec![
        Book { sheets: vec![sheet("S", vec![vec![text("A"), text("B")], vec![text("x"), text("y")]])] },
        Book { sheets: vec![sheet("S", vec![vec![text("A"), text("B")], vec![text("0"), Cell::Int(0)]])] },
        Book { sheets: vec![sheet("S", vec![vec![text("A"), text("B")]])] },
        Book { sheets: vec![sheet("Otra", vec![vec![text("A")], vec![text("1")]])] },
        Book { sheets: vec![sheet("S", vec![vec![Cell::Empty, text("B")]])] },
        Book { sheets: vec![sheet("S", vec![vec![text("A"), text("B")], vec![text("z"), text("w")]])] },
    ];
    let headers = extract_headers(&books);
    let out = consolidate(&books, &headers);
    assert_eq!(out.sheets.len(), 2);
    assert_eq!(
        out.sheets[0],
        OutputSheet {
            name: "S".to_string(),
            headers: vec!["A".to_string(), "B".to_string()],
            rows: vec![vec![text("x"), text("y")], vec![text("z"), text("w")]],
        }
    );
    assert_eq!(
        out.sheets[1],
        OutputSheet {
            name: "Otra".to_string(),
            headers: vec!["A".to_string()],
            rows: vec![vec![text("1")]],
        }
    );
    assert_eq!(out.set_apart, vec![vec![text("0"), Cell::Int(0)]]);
}

#[test]
fn sheets_of_drop_down_values_give_no_table() {
    let books = vec![Book {
        sheets: vec![
            sheet("Desplegables", vec![vec![text("A")], vec![text("x")]]),
            sheet("S", vec![vec![text("A")], vec![text("x")], vec![text("")]]),
            sheet("  desp. campus", vec![vec![text("A")], vec![text("")]]),
        ],
    }];
    let headers = extract_headers(&books);
    assert_eq!(headers.known_sheets, vec!["Desplegables", "S", "  desp. campus"]);
    let out = consolidate(&books, &headers);
    assert_eq!(out.sheets.len(), 1);
    assert_eq!(out.sheets[0].name, "S");
    assert_eq!(out.set_apart, vec![vec![text("")]]);
    assert!(is_dropdown("Desplegables"));
    assert!(is_dropdown("\tDESP 2"));
    assert!(!is_dropdown("Los desplegables"));
    assert!(!is_dropdown(""));
}

#[test]
fn a_sheet_is_found_by_its_name_whatever_its_case_and_spacing() {
    let sheets = vec![sheet("Otra", vec![]), sheet("datos ", vec![]), sheet("DATOS", vec![])];
    assert_eq!(sheet_named(&sheets, "DATOS"), Some(1));
    assert_eq!(sheet_named(&sheets, "datos"), Some(1));
    assert_eq!(sheet_named(&sheets, " Datos"), Some(1));
    assert_eq!(sheet_named(&sheets, "OTRA"), Some(0));
    assert_eq!(sheet_named(&sheets, "Dato"), None);
    assert_eq!(sheet_named(&Vec::new(), "Datos"), None);
}

#[test]
fn sheets_named_alike_in_other_case_are_joined() {
    let books = vec![
        Book { sheets: vec![sheet("Lista", vec![vec![text("A")], vec![text("x")]])] },
        Book { sheets: vec![sheet("LISTA ", vec![vec![text("a")], vec![text("y")]])] },
    ];
    let headers = extract_headers(&books);
    assert_eq!(headers.known_sheets, vec!["Lista"]);
    assert_eq!(headers.sheets.len(), 1);
    let out = consolidate(&books, &headers);
    assert_eq!(
        out.sheets,
        vec![OutputSheet {
            name: "Lista".to_string(),
            headers: vec!["A".to_string()],
            rows: vec![vec![text("x")], vec![text("y")]],
        }]
    );
}

#[test]
fn of_sheets_of_one_file_that_are_named_alike_the_first_counts() {
    let books = vec![Book {
        sheets: vec![
            sheet("Lista", vec![vec![text("A")], vec![text("x")]]),
            sheet("lista", vec![vec![text("B")], vec![text("y")]]),
        ],
    }];
    let headers = extract_headers(&books);
    assert_eq!(headers.known_sheets, vec!["Lista"]);
    assert_eq!(headers.sheets[0].canonical, vec!["A"]);
    let out = consolidate(&books, &headers);
    assert_eq!(
        out.sheets,
        vec![OutputSheet {
            name: "Lista".to_string(),
            headers: vec!["A".to_string()],
            rows: vec![vec![text("x")]],
        }]
    );
}

#[test]
fn rows_are_laid_out_by_the_places_of_the_columns() {
    let columns = vec![column("Edad", 1), column("nombre", 0), column("NOMBRE", 4)];
    assert_eq!(matching_column(&columns, "Nombre"), Some(1));
    assert_eq!(matching_column(&columns, " EDAD "), Some(0));
    assert_eq!(matching_column(&columns, "Campus"), None);
    let canonical = vec!["Nombre".to_string(), "Campus".to_string(), "Edad".to_string()];
    let from = sources(&canonical, &columns);
    assert_eq!(from, vec![Some(0), None, Some(1)]);
    assert_eq!(
        output_row(&vec![text("Ana"), Cell::Int(30), text("fuera")], &from),
        vec![text("Ana"), Cell::Empty, Cell::Int(30)]
    );
    assert_eq!(output_row(&vec![text("Ana")], &from), vec![text("Ana"), Cell::Empty, Cell::Empty]);
    assert_eq!(output_row(&vec![text("Ana")], &Vec::new()), Vec::<Cell>::new());
}

#[test]
fn a_file_with_none_of_the_columns_gives_an_empty_row_for_each_row_kept() {
    let mut table = vec![vec![text("antes")]];
    let mut set_apart = Vec::new();
    let rows = vec![vec![text("X")], vec![text("1")], vec![text("2")], vec![text("0")]];
    append_block(
        &mut table,
        &mut set_apart,
        &rows,
        &vec!["A".to_string()],
        &vec![column("X", 0)],
    );
    assert_eq!(table, vec![vec![text("antes")], vec![Cell::Empty], vec![Cell::Empty]]);
    assert_eq!(set_apart, vec![vec![text("0")]]);
    let mut table = Vec::new();
    append_block(&mut table, &mut set_apart, &Vec::new(), &vec!["A".to_string()], &Vec::new());
    assert_eq!(table, Vec::<Vec<Cell>>::new());
}

#[test]
fn a_file_whose_rows_are_all_set_apart_gives_no_row() {
    let mut table = vec![vec![text("antes")]];
    let mut set_apart = Vec::new();
    let rows = vec![vec![text("A")], vec![text("0")], vec![Cell::Int(0)], vec![text(" ")]];
    append_block(&mut table, &mut set_apart, &rows, &vec!["A".to_string()], &vec![column("A", 0)]);
    assert_eq!(table, vec![vec![text("antes")]]);
    assert_eq!(set_apart, vec![vec![text("0")], vec![Cell::Int(0)], vec![text(" ")]]);
    // A header row alone gives nothing at all.
    let rows = vec![vec![text("A")]];
    append_block(&mut table, &mut set_apart, &rows, &vec!["A".to_string()], &vec![column("A", 0)]);
    assert_eq!(table, vec![vec![text("antes")]]);
    assert_eq!(set_apart.len(), 3);
}

#[test]
fn rows_of_the_third_file_stand_directly_below_those_of_the_first() {
    let with = |rows: &[(&str, i64)]| {
        let mut all = vec![vec![text("Nombre"), text("Edad")]];
        for (name, age) in rows {
            all.push(vec![text(name), Cell::Int(*age)]);
        }
        Book { sheets: vec![sheet("S", all)] }
    };
    let books = vec![
        with(&[("Ana", 30), ("Luis", 41)]),
        with(&[("", 0), ("0", 0)]),
        with(&[("Eva", 25)]),
    ];
    let headers = extract_headers(&books);
    let out = consolidate(&books, &headers);
    assert_eq!(
        out.sheets[0].rows,
        vec![
            vec![text("Ana"), Cell::Int(30)],
            vec![text("Luis"), Cell::Int(41)],
            vec![text("Eva"), Cell::Int(25)],
        ]
    );
    assert_eq!(
        out.set_apart,
        vec![vec![text(""), Cell::Int(0)], vec![text("0"), Cell::Int(0)]]
    );
}

#[test]
fn cells_are_written_by_their_kind() {
    assert_eq!(write_cell(&Cell::Int(3)), Written::Int(3));
    assert_eq!(
        write_cell(&Cell::Float(Fraction { bits: 0x3ff8_0000_0000_0000, text: "1.5".to_string() })),
        Written::Float(0x3ff8_0000_0000_0000)
    );
    assert_eq!(write_cell(&text("a")), Written::Text("a".to_string()));
    assert_eq!(write_cell(&Cell::DateTimeIso("2024-01-01".to_string())), Written::Text("2024-01-01".to_string()));
    assert_eq!(write_cell(&Cell::DurationIso("PT1H".to_string())), Written::Text("PT1H".to_string()));
    assert_eq!(write_cell(&Cell::Bool(true)), Written::Bool(true));
    assert_eq!(write_cell(&Cell::DateTime(7)), Written::Date(7));
    assert_eq!(write_cell(&Cell::Error), Written::Blank);
    assert_eq!(write_cell(&Cell::Empty), Written::Nothing);
}
