use fivepoints_calc::catalog::{find_flux_calibrator, parse_band, scan_catalog_text, Band, CatalogFailure};

fn line(names: [&str; 3]) -> String {
    let nums: Vec<String> = (3..17).map(|i| format!("{i}.5")).collect();
    format!("{}\t{}\t{}\t{}", names[0], names[1], names[2], nums.join("\t"))
}

#[test]
fn catalog_rows_and_aliases() {
    let text = format!(
        "# Perley & Butler\nsource_name\tb\tc\n\n{}\n{}\n",
        line(["3C286", "1328+307", ""]),
        line(["3C48", "", "J0137+3309"]),
    );
    let scan = scan_catalog_text(&text);
    assert!(scan.failure.is_none());
    assert_eq!(scan.rows.len(), 2);
    assert_eq!(scan.rows[0].line, 4);
    assert_eq!(scan.rows[0].primary_name, "3C286");
    assert_eq!(scan.rows[0].aliases, vec!["3C286".to_string(), "1328+307".to_string()]);
    assert_eq!(scan.rows[0].numbers.len(), 14);
    assert_eq!(scan.rows[0].numbers[0], "3.5");
    assert_eq!(scan.rows[0].numbers[13], "16.5");
    assert_eq!(scan.rows[1].aliases, vec!["3C48".to_string(), "J0137+3309".to_string()]);
}

#[test]
fn wrong_field_count_stops_reading() {
    let text = format!("{}\n3C84\t1\t2\n{}\n", line(["A", "", ""]), line(["B", "", ""]));
    let scan = scan_catalog_text(&text);
    assert_eq!(scan.rows.len(), 1);
    assert_eq!(scan.failure, Some(CatalogFailure { line: 2, fields: 3 }));
}

#[test]
fn calibrator_found_by_alias_without_case() {
    let text = format!("{}\n{}\n", line(["3C286", "1328+307", ""]), line(["3C48", "", "J0137+3309"]));
    let rows = scan_catalog_text(&text).rows;
    assert!(rows[0].matches_source("3c286"));
    assert!(!rows[0].matches_source("3C28"));
    assert_eq!(find_flux_calibrator(&rows, "j0137+3309"), Some(1));
    assert_eq!(find_flux_calibrator(&rows, "1328+307"), Some(0));
    assert_eq!(find_flux_calibrator(&rows, "OJ287"), None);
}

#[test]
fn bands() {
    assert_eq!(parse_band("c"), Some(Band::C));
    assert_eq!(parse_band("X"), Some(Band::X));
    assert_eq!(parse_band("k"), Some(Band::K));
    assert_eq!(parse_band("ku"), None);
    assert_eq!(parse_band(""), None);
}
