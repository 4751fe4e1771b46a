use gazetteer::models::LocationRecord;
use gazetteer::score::Score;
use gazetteer::util::dice_coefficient;
use gazetteer::util::find_prefix;
use gazetteer::util::find_similar;
use gazetteer::engine::sort_candidates;

fn geomock() -> Vec<LocationRecord> {
    vec![
        LocationRecord::new(
            String::from("Asdf"),
            String::from("Asdf"),
            String::from("CA"),
            String::from("ON"),
            69105,
        ),
        LocationRecord::new(
            String::from("Sadf"),
            String::from("Sadf"),
            String::from("CA"),
            String::from("ON"),
            23421,
        ),
        LocationRecord::new(
            String::from("Qwèrty"),
            String::from("Qwerty"),
            String::from("CA"),
            String::from("ON"),
            54321,
        ),
        LocationRecord::new(
            String::from("Québec"),
            String::from("Quebec"),
            String::from("CA"),
            String::from("QC"),
            808080,
        ),
        LocationRecord::new(
            String::from("Qi Monte"),
            String::from("Qi Monte"),
            String::from("CA"),
            String::from("ON"),
            5432,
        ),
    ]
}

fn as_f64(s: Score) -> f64 {
    s.num as f64 / s.den as f64
}

#[test]
fn test_dice_coefficient() {
    assert_eq!(as_f64(dice_coefficient("asdf", "asdf")), 1.0);
    assert_eq!(as_f64(dice_coefficient("qwerty", "asdf")), 0.0);
}

#[test]
fn test_find_prefix() {
    let locations = geomock();
    let q = sort_candidates(find_prefix("q", &locations));
    assert_eq!(q.len(), 3);
    assert_eq!(locations[q[0].0].name.as_str(), "Québec");
    assert_eq!(locations[q[1].0].name.as_str(), "Qwèrty");
    assert_eq!(locations[q[2].0].name.as_str(), "Qi Monte");
}

#[test]
fn test_find_similar() {
    let locations = geomock();
    let q = sort_candidates(find_similar("qwete", &locations));
    assert_eq!(q.len(), 2);
    assert_eq!(locations[q[0].0].name.as_str(), "Qwèrty");
    assert_eq!(locations[q[1].0].name.as_str(), "Qi Monte");
}

#[test]
fn dice_of_identical_string_is_one() {
    let s = dice_coefficient("montreal", "montreal");
    assert_eq!(s.num, s.den);
    assert!(s.den > 0);
    assert_eq!(as_f64(s), 1.0);
}

#[test]
fn dice_of_disjoint_strings_is_zero() {
    let s = dice_coefficient("abab", "cdcd");
    assert_eq!(s.num, 0);
    assert_eq!(as_f64(s), 0.0);
}

#[test]
fn dice_windows_are_bytes_not_chars() {
    // "é" is two bytes, so it carries one two-byte window of its own.
    let s = dice_coefficient("é", "é");
    assert_eq!((s.num, s.den), (2, 2));
    // One multi-byte and one ASCII string share no byte window.
    let t = dice_coefficient("é", "e");
    assert_eq!(t.num, 0);
    assert_eq!(t.den, 1);
}

#[test]
fn dice_exact_ratio_of_partial_overlap() {
    // "qwerty" vs "qwete": shared windows "qw" and "we"; 4 / (6 + 5 - 2).
    let s = dice_coefficient("qwerty", "qwete");
    assert_eq!((s.num, s.den), (4, 9));
}

#[test]
fn dice_repeated_windows_pair_at_most_once() {
    // "aaa" offers two "aa" windows, "aa" only one: a single pairing.
    let s = dice_coefficient("aaa", "aa");
    assert_eq!((s.num, s.den), (2, 3));
    // The other way round the lone "aa" window of "aa" claims only one
    // of the two equal windows, keeping the score within [0, 1].
    let t = dice_coefficient("aa", "aaa");
    assert_eq!((t.num, t.den), (2, 3));
}

#[test]
fn prefix_scores_sum_to_one() {
    let locations = geomock();
    let q = find_prefix("q", &locations);
    let total: u64 = q.iter().map(|c| c.1.num).sum();
    assert_eq!(q.len(), 3);
    for c in &q {
        assert_eq!(c.1.den, 867833);
    }
    assert_eq!(total, 867833);
    let sum: f64 = q.iter().map(|c| as_f64(c.1)).sum();
    assert!((sum - 1.0).abs() < 1e-9);
}

#[test]
fn prefix_returns_exactly_the_matching_records() {
    let locations = geomock();
    let q = find_prefix("sa", &locations);
    let picked: Vec<usize> = q.iter().map(|c| c.0).collect();
    let expected: Vec<usize> = (0..locations.len())
        .filter(|&i| {
            locations[i].name_lower.starts_with("sa")
                || locations[i].name_ascii_lower.starts_with("sa")
        })
        .collect();
    assert_eq!(picked, expected);
    assert_eq!(picked, vec![1]);
}

#[test]
fn prefix_exact_scores() {
    let locations = geomock();
    let q = find_prefix("q", &locations);
    assert_eq!(q[0], (2, Score { num: 54321, den: 867833 }));
    assert_eq!(q[1], (3, Score { num: 808080, den: 867833 }));
    assert_eq!(q[2], (4, Score { num: 5432, den: 867833 }));
}

#[test]
fn prefix_matches_ascii_fallback() {
    let locations = geomock();
    // "qwe" matches Qwèrty only through its ASCII variant "qwerty".
    let q = find_prefix("qwe", &locations);
    assert_eq!(q.len(), 1);
    assert_eq!(locations[q[0].0].name.as_str(), "Qwèrty");
}

#[test]
fn similar_never_keeps_scores_at_or_below_tenth() {
    let locations = geomock();
    for query in ["qwete", "asd", "monte", "xyz"] {
        for c in find_similar(query, &locations) {
            assert!(c.1.den > 0);
            assert!(as_f64(c.1) > 0.1);
            assert!(10 * c.1.num as u128 > c.1.den as u128);
        }
    }
}

#[test]
fn similar_exact_ratios() {
    let locations = geomock();
    let q = find_similar("qwete", &locations);
    // Qwèrty through its ASCII variant: 4/9; Qi Monte: shared "te", 2/11.
    assert_eq!(q, vec![(2, Score { num: 4, den: 9 }), (4, Score { num: 2, den: 11 })]);
}
