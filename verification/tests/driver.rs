use concentra::driver::{
    ends_with, into_groups, is_included, log_grupos, log_name, log_titles, retained_groups,
    set_apart_name, set_apart_sheet, status_label, table_name, Config, LogRow,
};
use concentra::groups::{Group, PreGroup};
use concentra::token::Token;

#[test]
fn a_run_asks_nothing_when_the_command_line_says_enough() {
    assert!(!Config::new(3, false, false, false, false, false).from_cli);
    assert!(Config::new(3, false, true, false, false, false).from_cli);
    assert!(Config::new(3, true, false, false, false, false).from_cli);
    assert!(Config::new(3, false, false, false, true, false).from_cli);
    assert!(Config::new(3, false, false, false, false, true).from_cli);
    assert!(!Config::new(3, false, false, true, false, false).from_cli);
    let config = Config::new(5, true, false, true, false, false);
    assert_eq!(config, Config { numero_campus: 5, descartados: true, from_cli: true, reset: true });
}

#[test]
fn tables_are_known_by_the_end_of_their_names() {
    let endings: Vec<Vec<u8>> =
        ["xlsx", "xlsm", "xlsb", "xls"].iter().map(|e| e.as_bytes().to_vec()).collect();
    assert!(is_included(b"Reporte.xlsx", &endings));
    assert!(is_included(b"Reporte.xls", &endings));
    assert!(is_included(b"xls", &endings));
    assert!(is_included(b"sin_punto_xlsb", &endings));
    assert!(!is_included(b"Reporte.csv", &endings));
    assert!(!is_included(b"Reporte.xlsx.bak", &endings));
    assert!(!is_included(b"", &endings));
    assert!(!is_included(b"Reporte.xlsx", &Vec::new()));
    assert!(ends_with(b"abc", b""));
    assert!(ends_with(b"abc", b"abc"));
    assert!(!ends_with(b"bc", b"abc"));
}

#[test]
fn groups_of_one_file_are_logged_and_left_out() {
    let groups = vec![
        Group { key: b"Reporte".to_vec(), files: vec![0, 2] },
        Group { key: b"suelto".to_vec(), files: vec![1] },
        Group { key: b"vacio".to_vec(), files: vec![] },
        Group { key: b"Otro".to_vec(), files: vec![5, 4, 3] },
    ];
    assert_eq!(retained_groups(&groups), vec![0, 3]);
    assert_eq!(
        log_grupos(&groups),
        vec![
            LogRow { group: 0, included: true, file: 0 },
            LogRow { group: 0, included: true, file: 2 },
            LogRow { group: 1, included: false, file: 1 },
            LogRow { group: 3, included: true, file: 5 },
            LogRow { group: 3, included: true, file: 4 },
            LogRow { group: 3, included: true, file: 3 },
        ]
    );
    assert_eq!(status_label(true), "Incluido");
    assert_eq!(status_label(false), "Descartado");
}

#[test]
fn output_files_are_named_after_the_key() {
    assert_eq!(table_name(b"Reporte"), b"Reporte.xlsx".to_vec());
    assert_eq!(set_apart_name(b"Reporte"), b"Reporte.descartados.xlsx".to_vec());
    assert_eq!(table_name(b""), b".xlsx".to_vec());
    assert_eq!(log_name(), "grupos.xlsx");
    assert_eq!(log_titles(), vec!["Grupo", "Estatus", "Nombre", "Ruta"]);
    assert_eq!(set_apart_sheet(), "Descartados");
}

#[test]
fn groups_keep_key_and_files_without_headers() {
    let merged = vec![
        PreGroup {
            key: b"Uno".to_vec(),
            files: vec![0, 2],
            headers: vec![vec![Token { text: "a".to_string() }]],
        },
        PreGroup { key: b"Dos".to_vec(), files: vec![1], headers: vec![] },
    ];
    assert_eq!(
        into_groups(merged),
        vec![
            Group { key: b"Uno".to_vec(), files: vec![0, 2] },
            Group { key: b"Dos".to_vec(), files: vec![1] },
        ]
    );
}
