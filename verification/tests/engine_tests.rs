use gazetteer::engine::Gazetteer;
use gazetteer::engine::MAX_RESULTS;
use gazetteer::models::LocationRecord;
use gazetteer::models::Suggestions;

fn geomock() -> Vec<LocationRecord> {
    vec![
        LocationRecord::new(
            String::from("Asdf"),
            String::from("Asdf"),
            String::from("CA"),
            String::from("ON"),
            69105,
        ),
        LocationRecord::new(
            String::from("Sadf"),
            String::from("Sadf"),
            String::from("CA"),
            String::from("ON"),
            23421,
        ),
        LocationRecord::new(
            String::from("Qwèrty"),
            String::from("Qwerty"),
            String::from("CA"),
            String::from("ON"),
            54321,
        ),
        LocationRecord::new(
            String::from("Québec"),
            String::from("Quebec"),
            String::from("CA"),
            String::from("QC"),
            808080,
        ),
        LocationRecord::new(
            String::from("Qi Monte"),
            String::from("Qi Monte"),
            String::from("CA"),
            String::from("ON"),
            5432,
        ),
    ]
}

fn names(out: &Suggestions) -> Vec<&str> {
    out.suggestions.iter().map(|s| s.name.as_str()).collect()
}

#[test]
fn short_query_takes_prefix_path() {
    let g = Gazetteer::new(geomock()).ok().unwrap();
    let out = g.suggest(Some("q"), None).ok().unwrap();
    assert_eq!(names(&out), vec!["Québec, CA", "Qwèrty, CA", "Qi Monte, CA"]);
    let scores: Vec<f64> = out
        .suggestions
        .iter()
        .map(|s| s.score.num as f64 / s.score.den as f64)
        .collect();
    assert!((scores[0] - 808080.0 / 867833.0).abs() < 1e-9);
    assert!((scores[1] - 54321.0 / 867833.0).abs() < 1e-9);
    assert!((scores[2] - 5432.0 / 867833.0).abs() < 1e-9);
    assert!((scores[0] - 0.9311).abs() < 1e-4);
    assert!((scores[1] - 0.0626).abs() < 1e-4);
    assert!((scores[2] - 0.00626).abs() < 1e-5);
}

#[test]
fn longer_query_takes_similarity_path() {
    let g = Gazetteer::new(geomock()).ok().unwrap();
    let out = g.suggest(Some("qwete"), None).ok().unwrap();
    assert_eq!(names(&out), vec!["Qwèrty, CA", "Qi Monte, CA"]);
}

#[test]
fn query_is_lowercased_before_matching() {
    let g = Gazetteer::new(geomock()).ok().unwrap();
    let out = g.suggest(Some("Q"), None).ok().unwrap();
    assert_eq!(out.suggestions.len(), 3);
    let out2 = g.suggest(Some("QWETE"), None).ok().unwrap();
    assert_eq!(names(&out2), vec!["Qwèrty, CA", "Qi Monte, CA"]);
}

#[test]
fn missing_query_is_reported_not_thrown() {
    let g = Gazetteer::new(geomock()).ok().unwrap();
    let e = g.suggest(None, None).err().unwrap();
    assert_eq!(e.err, "Missing parameter: q");
    let e2 = g.suggest(Some(""), None).err().unwrap();
    assert_eq!(e2.err, "Missing parameter: q");
}

#[test]
fn no_match_is_an_empty_reply() {
    let g = Gazetteer::new(geomock()).ok().unwrap();
    let out = g.suggest(Some("zzz"), None).ok().unwrap();
    assert_eq!(out.suggestions.len(), 0);
}

#[test]
fn replies_are_capped_at_twenty() {
    let mut records = Vec::new();
    for i in 0..25u64 {
        records.push(LocationRecord::new(
            format!("Qtown {}", i),
            String::new(),
            String::from("CA"),
            String::from("ON"),
            100 + i,
        ));
    }
    let g = Gazetteer::new(records).ok().unwrap();
    let out = g.suggest(Some("q"), None).ok().unwrap();
    assert_eq!(out.suggestions.len(), MAX_RESULTS);
    assert_eq!(out.suggestions.len(), 20);
}

#[test]
fn keep_mask_drops_records_before_the_cap() {
    let g = Gazetteer::new(geomock()).ok().unwrap();
    // Only record 3 (Québec) is inside the caller's radius.
    let mask = vec![false, false, false, true, false];
    let out = g.suggest(Some("q"), Some(&mask)).ok().unwrap();
    assert_eq!(names(&out), vec!["Québec, CA"]);
    for s in &out.suggestions {
        assert!(mask[s.index]);
    }
}

#[test]
fn ties_keep_record_order() {
    let mut records = geomock();
    records.push(LocationRecord::new(
        String::from("Qoo"),
        String::new(),
        String::from("CA"),
        String::from("ON"),
        54321,
    ));
    // Qwèrty (position 2) and Qoo (position 5) share a population, so
    // they share a prefix score: the earlier record comes first.
    let g = Gazetteer::new(records).ok().unwrap();
    let out = g.suggest(Some("q"), None).ok().unwrap();
    let i_qwerty = out.suggestions.iter().position(|s| s.name == "Qwèrty, CA").unwrap();
    let i_qoo = out.suggestions.iter().position(|s| s.name == "Qoo, CA").unwrap();
    assert!(i_qwerty < i_qoo);
}

#[test]
fn store_with_overflowing_population_is_rejected() {
    let records = vec![
        LocationRecord::new(
            String::from("A"),
            String::new(),
            String::from("CA"),
            String::from("ON"),
            u64::MAX,
        ),
        LocationRecord::new(
            String::from("B"),
            String::new(),
            String::from("CA"),
            String::from("ON"),
            1,
        ),
    ];
    assert!(Gazetteer::new(records).is_err());
}

#[test]
fn store_with_sentinel_byte_in_a_name_is_rejected() {
    let records = vec![LocationRecord::new(
        String::from("bad\u{0}name"),
        String::new(),
        String::from("CA"),
        String::from("ON"),
        1,
    )];
    assert!(Gazetteer::new(records).is_err());
}

#[test]
fn empty_ascii_name_falls_back_to_the_display_name() {
    let rec = LocationRecord::new(
        String::from("Île"),
        String::new(),
        String::from("CA"),
        String::from("QC"),
        7,
    );
    assert_eq!(rec.name_lower, "île");
    assert_eq!(rec.name_ascii_lower, "île");
}
