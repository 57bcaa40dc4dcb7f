use concentra::names::get_name;

fn key(name: &str) -> String {
    String::from_utf8(get_name(name.as_bytes()).to_vec()).unwrap()
}

#[test]
fn cycle_and_campus_are_stripped() {
    assert_eq!(key("Reporte_NTE_24-25.xlsx"), "Reporte");
    assert_eq!(key("UNI_Reporte_CAM_24-25.xlsx"), "UNI_Reporte");
    assert_eq!(key("Matricula__SUR__23-24.xlsb"), "Matricula");
}

#[test]
fn campus_without_underscores_is_stripped_by_length() {
    // The three bytes before the cycle go, whatever they are.
    assert_eq!(key("ReporteNTE24-25.xlsx"), "Reporte");
    assert_eq!(key("Reporte_A_24-25.xlsx"), "Report");
}

#[test]
fn short_names_stay_whole() {
    assert_eq!(key("a.xlsx"), "a.xlsx");
    assert_eq!(key("24-25.xls"), "24-25.xls");
    assert_eq!(key(""), "");
    assert_eq!(key("123456789"), "123456789");
}

#[test]
fn long_names_lose_only_the_extension_without_a_cycle() {
    assert_eq!(key("Reporte_general.xlsx"), "Reporte_general");
    assert_eq!(key("Reporte_24-25_A.xlsx"), "Reporte_24-25_A");
    assert_eq!(key("Reporte_24-25_B.xlsx"), "Reporte_24-25_B");
    assert_eq!(key("archivo.tar.xlsx"), "archivo.tar");
}

#[test]
fn stem_no_longer_than_the_window_is_kept() {
    // The stem is exactly as long as the window: nothing is stripped.
    assert_eq!(key("24-25.xlsx"), "24-25");
}

#[test]
fn name_without_extension_is_its_own_stem() {
    assert_eq!(key("Reporte_NTE_24-25"), "Reporte");
    assert_eq!(key("Reporte_general"), "Reporte_general");
}

#[test]
fn short_remainder_is_stripped_whole() {
    assert_eq!(key("A_24-25.xlsx"), "");
    assert_eq!(key("AB__24-25.xlsx"), "");
    assert_eq!(key("_24-25.xlsx"), "");
}

#[test]
fn key_with_extension_has_the_same_key() {
    let first = key("Concentrado_NTE_24-25.xlsx");
    assert_eq!(first, "Concentrado");
    let again = key(&format!("{first}.xlsx"));
    assert_eq!(again, first);
}

#[test]
fn key_that_ends_in_a_cycle_is_stripped_again() {
    let first = key("A_BBB_24-25_CCC_24-25.xlsx");
    assert_eq!(first, "A_BBB_24-25");
    assert_eq!(key(&format!("{first}.xlsx")), "A");
}

#[test]
fn names_are_bytes() {
    let name = [b'R', 0xff, b'_', b'N', b'T', b'E', b'_', b'2', b'4', b'-', b'2', b'5'];
    assert_eq!(get_name(&name), &[b'R', 0xff]);
    // A byte that is no underscore stops the trimming, valid text or not.
    let name = [b'R', b'_', 0xff, b'_', b'N', b'T', b'E', b'_', b'2', b'4', b'-', b'2', b'5'];
    assert_eq!(get_name(&name), &[b'R', b'_', 0xff]);
}
