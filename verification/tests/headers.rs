use concentra::fingerprint::{
    fingerprint, first_titled, headers_from_file, initial, is_excluded, titled, token,
};
use concentra::headers::{
    add_canonical, add_known, extract_headers, is_known, put_column, Column, FileColumns,
    Headers, SheetHeaders,
};
use concentra::sheets::{Book, Cell, ColumnInfo, Sheet};
use concentra::text::{contains_text, header_matches, starts_with, to_chars, trim};
use concentra::token::Token;

fn text(s: &str) -> Cell {
    Cell::Text(s.to_string())
}

fn sheet(name: &str, rows: Vec<Vec<Cell>>) -> Sheet {
    Sheet { name: name.to_string(), rows }
}

fn tokens(texts: &[&str]) -> Vec<Token> {
    texts.iter().map(|t| Token { text: t.to_string() }).collect()
}

fn info(index: u16, always_filled: bool, single_valued: bool, non_empty_count: u32) -> ColumnInfo {
    ColumnInfo { index, always_filled, single_valued, non_empty_count }
}

fn column(name: &str, info: ColumnInfo) -> Column {
    Column { name: name.to_string(), info }
}

#[test]
fn headers_match_whatever_their_case_and_spacing() {
    assert!(header_matches("Nombre Completo", "Nombre  completo  "));
    assert!(header_matches("Nombre\tCompleto", "\nNOMBRE COMPLETO"));
    assert!(header_matches("", "  "));
    assert!(!header_matches("Nombre Completo", "NombreCompleto"));
    assert!(!header_matches("Nombre", "Nombres"));
    assert!(!header_matches("Nombre Completo", "Completo Nombre"));
}

#[test]
fn trimming_and_searching() {
    assert_eq!(trim("\u{a0} hola mundo \n"), "hola mundo");
    assert_eq!(trim("   "), "");
    assert_eq!(trim(""), "");
    let s = to_chars("glosario de siglas");
    assert!(starts_with(&s, &to_chars("glos")));
    assert!(starts_with(&s, &to_chars("")));
    assert!(!starts_with(&s, &to_chars("siglas")));
    assert!(!starts_with(&to_chars("gl"), &to_chars("glos")));
    assert!(contains_text(&s, &to_chars("siglas")));
    assert!(contains_text(&s, &to_chars("glosario de siglas")));
    assert!(contains_text(&s, &to_chars("")));
    assert!(contains_text(&to_chars(""), &to_chars("")));
    assert!(!contains_text(&s, &to_chars("siglass")));
    assert!(!contains_text(&to_chars(""), &to_chars("a")));
}

#[test]
fn known_names_are_added_once() {
    let mut list = vec!["DATOS".to_string()];
    assert!(is_known(&list, " datos "));
    assert!(!is_known(&list, "dato"));
    add_known(&mut list, "datos");
    add_known(&mut list, "Hoja 1");
    add_known(&mut list, "HOJA  1");
    add_known(&mut list, "");
    add_known(&mut list, "  ");
    assert_eq!(list, vec!["DATOS", "Hoja 1", ""]);
}

#[test]
fn headers_are_kept_in_their_first_spelling() {
    let mut list: Vec<String> = Vec::new();
    add_canonical(&mut list, "Nombre Completo");
    add_canonical(&mut list, "Nombre  completo  ");
    add_canonical(&mut list, "Edad");
    add_canonical(&mut list, "   ");
    add_canonical(&mut list, "");
    add_canonical(&mut list, "EDAD");
    add_canonical(&mut list, " edad (años)");
    assert_eq!(list, vec!["Nombre Completo", "Edad", " edad (años)"]);
}

#[test]
fn a_column_is_put_under_its_header_once() {
    let mut columns = vec![column("A", info(0, true, false, 2)), column("B", info(1, true, false, 2))];
    put_column(&mut columns, "A".to_string(), info(5, false, true, 0));
    put_column(&mut columns, "a".to_string(), info(6, false, false, 1));
    assert_eq!(
        columns,
        vec![
            column("A", info(5, false, true, 0)),
            column("B", info(1, true, false, 2)),
            column("a", info(6, false, false, 1)),
        ]
    );
}

#[test]
fn abbreviations_take_the_first_letters_of_three_words() {
    assert_eq!(token("Nombre Completo").text, "nc");
    assert_eq!(token("Clave de la Institución Educativa").text, "cdl");
    assert_eq!(token("  Área\tde\nConocimiento ").text, "ádc");
    assert_eq!(token("1er Semestre (2024)").text, "es");
    assert_eq!(token("2024").text, "");
    assert_eq!(token("2024 Total de Alumnos Inscritos").text, "td");
    assert_eq!(token("").text, "");
    assert_eq!(token("  ").text, "");
    assert_eq!(initial("¿Qué"), Some('q'));
    assert_eq!(initial("123"), None);
    assert_eq!(initial(""), None);
    assert_eq!(initial("\u{130}stanbul"), Some('i'));
}

#[test]
fn fingerprints_take_texts_only() {
    let header =
        vec![text("Nombre Completo"), Cell::Int(2024), Cell::Empty, text("Edad"), text("")];
    assert_eq!(fingerprint(&header), tokens(&["nc", "e", ""]));
    assert_eq!(fingerprint(&Vec::new()), Vec::<Token>::new());
}

#[test]
fn sheets_set_aside_by_name() {
    assert!(is_excluded("Desplegables", 1));
    assert!(is_excluded("  DESP ", 1));
    assert!(is_excluded("Glosario", 1));
    assert!(is_excluded("Lista de SIGLAS", 1));
    assert!(is_excluded("Diccionario de datos", 1));
    assert!(is_excluded("Catálogo", 1));
    assert!(is_excluded("catalogo de carreras", 1));
    assert!(is_excluded("DATOS", 1));
    assert!(is_excluded("Hoja1", 2));
    assert!(!is_excluded("Hoja1", 1));
    assert!(!is_excluded("Matrícula", 3));
    assert!(!is_excluded("Los desp", 1));
    assert!(!is_excluded("logo", 1));
    assert!(!is_excluded("", 1));
}

#[test]
fn header_rows_have_a_first_cell_with_text() {
    assert!(titled(&vec![text("Nombre")]));
    assert!(titled(&vec![Cell::Int(1)]));
    assert!(!titled(&vec![text("  ")]));
    assert!(!titled(&vec![Cell::Empty, text("Nombre")]));
    assert!(!titled(&vec![Cell::Bool(true)]));
    assert!(!titled(&vec![]));
    let rows = vec![vec![Cell::Empty], vec![text(" ")], vec![text("a")], vec![text("b")]];
    assert_eq!(first_titled(&rows), Some(2));
    assert_eq!(first_titled(&vec![vec![Cell::Empty]]), None);
    assert_eq!(first_titled(&Vec::new()), None);
}

#[test]
fn the_signature_of_a_file() {
    let book = Book {
        sheets: vec![
            sheet("Matrícula", vec![vec![Cell::Empty], vec![text("Nombre Completo"), text("Edad")]]),
            sheet("DATOS", vec![vec![text("Nombre"), text("Edad")]]),
            sheet("Sin filas", vec![]),
            sheet("Egresados", vec![vec![Cell::Int(1), text("Año de egreso")]]),
            sheet("Hoja2", vec![vec![text("x")]]),
        ],
    };
    assert_eq!(headers_from_file(&book), vec![tokens(&["nc", "e"]), tokens(&["ade"])]);
    assert_eq!(headers_from_file(&Book { sheets: vec![] }), Vec::<Vec<Token>>::new());
    // A sheet with a default name counts where it is the only one.
    let book = Book { sheets: vec![sheet("Hoja1", vec![vec![text("x y")]])] };
    assert_eq!(headers_from_file(&book), vec![tokens(&["xy"])]);
}

#[test]
fn the_headers_of_a_group() {
    let books = vec![
        Book {
            sheets: vec![sheet(
                "DATOS",
                vec![
                    vec![text("Nombre Completo"), text("Campus"), Cell::Empty, Cell::Int(2024)],
                    vec![text("Ana"), text("Norte"), text("x"), Cell::Int(1)],
                    vec![text("Luis"), text("norte"), Cell::Empty, Cell::Int(1)],
                ],
            )],
        },
        Book {
            sheets: vec![
                sheet(
                    "DATOS",
                    vec![
                        vec![Cell::Empty, text("no cuenta")],
                        vec![text("Nombre  completo  "), text("Edad")],
                        vec![text("Eva"), Cell::Int(25)],
                    ],
                ),
                sheet("datos", vec![vec![text("Otro")]]),
                sheet("Vacía", vec![]),
            ],
        },
    ];
    let headers = extract_headers(&books);
    assert_eq!(
        headers,
        Headers {
            sheets: vec![
                SheetHeaders {
                    name: "DATOS".to_string(),
                    files: vec![
                        FileColumns {
                            file: 0,
                            columns: vec![
                                column("Nombre Completo", info(0, true, false, 2)),
                                column("Campus", info(1, true, true, 2)),
                                column("2024", info(3, true, true, 2)),
                            ],
                        },
                        FileColumns {
                            file: 1,
                            columns: vec![
                                column("Nombre  completo  ", info(0, true, true, 1)),
                                column("Edad", info(1, true, true, 1)),
                            ],
                        },
                    ],
                    canonical: vec![
                        "Nombre Completo".to_string(),
                        "Campus".to_string(),
                        "2024".to_string(),
                        "Edad".to_string(),
                    ],
                },
                SheetHeaders { name: "Vacía".to_string(), files: vec![], canonical: vec![] },
            ],
            known_sheets: vec!["DATOS".to_string(), "Vacía".to_string()],
        }
    );
}

#[test]
fn headers_that_differ_in_spacing_are_one_header() {
    let books = vec![
        Book { sheets: vec![sheet("S", vec![vec![text("Nombre Completo")], vec![text("Ana")]])] },
        Book {
            sheets: vec![sheet("S", vec![vec![text("Nombre  completo  ")], vec![text("Eva")]])],
        },
    ];
    let headers = extract_headers(&books);
    assert_eq!(headers.sheets.len(), 1);
    assert_eq!(headers.sheets[0].canonical, vec!["Nombre Completo"]);
}

#[test]
fn a_header_that_occurs_twice_in_a_file_keeps_its_last_column() {
    let books = vec![Book {
        sheets: vec![sheet(
            "S",
            vec![
                vec![text("A"), text("B"), text("A")],
                vec![text("x"), text("y"), Cell::Empty],
                vec![text("z"), text("y"), Cell::Empty],
            ],
        )],
    }];
    let headers = extract_headers(&books);
    assert_eq!(
        headers.sheets[0].files[0].columns,
        vec![column("A", info(2, false, true, 0)), column("B", info(1, true, true, 2))]
    );
    assert_eq!(headers.sheets[0].canonical, vec!["A", "B"]);
}

#[test]
fn a_file_whose_only_column_is_too_far_has_an_entry_without_columns() {
    let mut header: Vec<Cell> = (0..0x1_0000).map(|_| Cell::Empty).collect();
    header[0] = Cell::Bool(true);
    header.push(text("lejos"));
    let books = vec![Book { sheets: vec![sheet("S", vec![header])] }];
    let headers = extract_headers(&books);
    assert_eq!(
        headers.sheets,
        vec![SheetHeaders {
            name: "S".to_string(),
            files: vec![FileColumns { file: 0, columns: vec![] }],
            canonical: vec!["lejos".to_string()],
        }]
    );
}
