use concentra::groups::{
    find_pair, key_wins, merge_groups, merge_two, obtener_grupos_por_nombre, process_file, Group,
    PreGroup,
};
use concentra::token::Token;

fn names(list: &[&str]) -> Vec<Vec<u8>> {
    list.iter().map(|n| n.as_bytes().to_vec()).collect()
}

fn tokens(texts: &[&str]) -> Vec<Token> {
    texts.iter().map(|t| Token { text: t.to_string() }).collect()
}

fn pre(key: &str, files: &[usize], headers: Vec<Vec<Token>>) -> PreGroup {
    PreGroup { key: key.as_bytes().to_vec(), files: files.to_vec(), headers }
}

#[test]
fn files_are_grouped_by_the_key_of_their_names() {
    let groups = obtener_grupos_por_nombre(&names(&[
        "Reporte_NTE_24-25.xlsx",
        "Matricula_NTE_24-25.xlsx",
        "Reporte_SUR_24-25.xlsx",
        "suelto.xlsx",
        "Reporte_CEN_23-24.xlsm",
    ]));
    assert_eq!(
        groups,
        vec![
            Group { key: b"Reporte".to_vec(), files: vec![0, 2, 4] },
            Group { key: b"Matricula".to_vec(), files: vec![1] },
            Group { key: b"suelto".to_vec(), files: vec![3] },
        ]
    );
}

#[test]
fn no_files_give_no_groups() {
    assert_eq!(obtener_grupos_por_nombre(&Vec::new()), Vec::<Group>::new());
}

#[test]
fn keys_are_not_normalised() {
    let groups = obtener_grupos_por_nombre(&names(&[
        "Reporte_NTE_24-25.xlsx",
        "reporte_NTE_24-25.xlsx",
        "Reporte _NTE_24-25.xlsx",
    ]));
    assert_eq!(groups.len(), 3);
}

#[test]
fn a_file_joins_the_group_of_its_key() {
    let mut groups = vec![
        Group { key: b"Otro".to_vec(), files: vec![5] },
        Group { key: b"Reporte".to_vec(), files: vec![7] },
    ];
    process_file(9, b"Reporte_NTE_24-25.xlsx", &mut groups);
    assert_eq!(
        groups,
        vec![
            Group { key: b"Otro".to_vec(), files: vec![5] },
            Group { key: b"Reporte".to_vec(), files: vec![7, 9] },
        ]
    );
    process_file(3, b"Nuevo_NTE_24-25.xlsx", &mut groups);
    assert_eq!(groups.len(), 3);
    assert_eq!(groups[2], Group { key: b"Nuevo".to_vec(), files: vec![3] });
}

#[test]
fn the_longer_key_wins_and_then_the_later_one() {
    assert!(key_wins(b"Reportes", b"Reporte"));
    assert!(!key_wins(b"Reporte", b"Reportes"));
    assert!(key_wins(b"Reporte_B", b"Reporte_A"));
    assert!(!key_wins(b"Reporte_A", b"Reporte_B"));
    assert!(!key_wins(b"igual", b"igual"));
    assert!(!key_wins(b"", b""));
    assert!(key_wins(b"b", b"a"));
    assert!(key_wins(b"ba", b"az"));
    assert!(!key_wins(b"az", b"ba"));
}

#[test]
fn merging_two_groups_keeps_the_winner_first() {
    let a = pre("Reporte_A", &[0, 1], vec![tokens(&["a"])]);
    let b = pre("Reporte_B", &[2], vec![tokens(&["b"])]);
    assert_eq!(merge_two(a, b), pre("Reporte_B", &[2, 0, 1], vec![tokens(&["b"])]));
    let a = pre("Reporte_largo", &[0, 1], vec![tokens(&["a"])]);
    let b = pre("Reporte", &[2], vec![tokens(&["b"])]);
    assert_eq!(merge_two(a, b), pre("Reporte_largo", &[0, 1, 2], vec![tokens(&["a"])]));
}

#[test]
fn groups_with_like_headers_merge() {
    let merged = merge_groups(vec![
        pre("Uno", &[0], vec![tokens(&["a", "b"])]),
        pre("Otro", &[1], vec![tokens(&["x", "y"])]),
        pre("Dos", &[2, 3], vec![tokens(&["a", "b"])]),
    ]);
    assert_eq!(
        merged,
        vec![
            pre("Uno", &[0, 2, 3], vec![tokens(&["a", "b"])]),
            pre("Otro", &[1], vec![tokens(&["x", "y"])]),
        ]
    );
}

#[test]
fn merging_goes_on_until_nothing_is_alike() {
    // The second is like the first and like the third, the first and the
    // third are not alike: once the first two have merged under the headers
    // of the second, the third follows.
    let ten: Vec<String> = (0..10).map(|i| format!("t{i}")).collect();
    let mut first: Vec<&str> = ten.iter().map(|t| t.as_str()).collect();
    let second = first.clone();
    let mut third = first.clone();
    first[0] = "x";
    third[9] = "y";
    let merged = merge_groups(vec![
        pre("a", &[0], vec![tokens(&first)]),
        pre("bb", &[1], vec![tokens(&second)]),
        pre("c", &[2], vec![tokens(&third)]),
    ]);
    assert_eq!(merged, vec![pre("bb", &[1, 0, 2], vec![tokens(&second)])]);
}

#[test]
fn merging_again_changes_nothing() {
    let merged = merge_groups(vec![
        pre("Uno", &[0], vec![tokens(&["a", "b"])]),
        pre("Otro", &[1], vec![tokens(&["x", "y"])]),
        pre("Dos", &[2, 3], vec![tokens(&["a", "b"])]),
        pre("Tres", &[4], vec![tokens(&["x", "y"]), tokens(&["z"])]),
    ]);
    assert_eq!(find_pair(&merged), None);
    let again = merge_groups(vec![
        pre("Uno", &[0, 2, 3], vec![tokens(&["a", "b"])]),
        pre("Otro", &[1], vec![tokens(&["x", "y"])]),
        pre("Tres", &[4], vec![tokens(&["x", "y"]), tokens(&["z"])]),
    ]);
    assert_eq!(again, merged);
}

#[test]
fn the_first_pair_in_order_is_found() {
    let groups = vec![
        pre("a", &[0], vec![tokens(&["a"])]),
        pre("b", &[1], vec![tokens(&["b"])]),
        pre("c", &[2], vec![tokens(&["b"])]),
        pre("d", &[3], vec![tokens(&["a"])]),
    ];
    assert_eq!(find_pair(&groups), Some((0, 3)));
    assert_eq!(find_pair(&Vec::new()), None);
}
