use gazetteer::models::LocationRecord;
use gazetteer::models::Suggestion;
use gazetteer::models::normalize_admin1;
use gazetteer::score::Score;

#[test]
fn numeric_province_codes_map_to_letters() {
    let table = [
        ("01", "AB"),
        ("02", "BC"),
        ("03", "MB"),
        ("04", "NB"),
        ("05", "NL"),
        ("07", "NS"),
        ("08", "ON"),
        ("09", "PE"),
        ("10", "QC"),
        ("11", "SK"),
        ("12", "YK"),
        ("13", "NT"),
        ("14", "NU"),
    ];
    for (code, prov) in table {
        assert_eq!(normalize_admin1(code), prov);
    }
}

#[test]
fn other_admin_codes_pass_through_unchanged() {
    assert_eq!(normalize_admin1("06"), "06");
    assert_eq!(normalize_admin1("TX"), "TX");
    assert_eq!(normalize_admin1("ON"), "ON");
    assert_eq!(normalize_admin1(""), "");
    assert_eq!(normalize_admin1("123"), "123");
}

#[test]
fn records_lowercase_both_match_targets() {
    let rec = LocationRecord::new(
        String::from("QuÉbEc"),
        String::from("QueBec"),
        String::from("CA"),
        String::from("10"),
        808080,
    );
    assert_eq!(rec.name, "QuÉbEc");
    assert_eq!(rec.name_lower, "québec");
    assert_eq!(rec.name_ascii_lower, "quebec");
    assert_eq!(rec.country, "CA");
    assert_eq!(rec.stateprov, "QC");
    assert_eq!(rec.population, 808080);
}

#[test]
fn suggestion_formats_name_with_country() {
    let rec = LocationRecord::new(
        String::from("Québec"),
        String::from("Quebec"),
        String::from("CA"),
        String::from("QC"),
        808080,
    );
    let s = Suggestion::new(&rec, Score { num: 1, den: 2 }, 0);
    assert_eq!(s.name, "Québec, CA");
    assert_eq!(s.population, 808080);
    assert_eq!(s.score, Score { num: 1, den: 2 });
    assert_eq!(s.index, 0);
}
