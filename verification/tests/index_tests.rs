use gazetteer::engine::Gazetteer;
use gazetteer::index::SubstringIndex;
use gazetteer::models::LocationRecord;

fn rec(name: &str, pop: u64) -> LocationRecord {
    LocationRecord::new(
        String::from(name),
        String::new(),
        String::from("CA"),
        String::from("ON"),
        pop,
    )
}

#[test]
fn corpus_concatenates_names_with_sentinels() {
    let records = vec![rec("Asdf", 1), rec("Sadf", 2)];
    let idx = SubstringIndex::build(&records);
    assert_eq!(idx.corpus, b"asdf\x00sadf".to_vec());
    assert_eq!(idx.boundaries, vec![0, 5]);
}

#[test]
fn occurrences_finds_every_offset() {
    let records = vec![rec("Asdf", 1), rec("Sadf", 2)];
    let idx = SubstringIndex::build(&records);
    assert_eq!(idx.occurrences(b"df"), vec![2, 7]);
    assert_eq!(idx.occurrences(b"a"), vec![0, 6]);
    assert_eq!(idx.occurrences(b"q"), Vec::<usize>::new());
}

#[test]
fn sentinel_stops_matches_spanning_two_names() {
    // Without the separator the corpus would read "asdfsadf" and hold
    // "fs"; with it, no match crosses a name boundary.
    let records = vec![rec("Asdf", 1), rec("Sadf", 2)];
    let idx = SubstringIndex::build(&records);
    assert_eq!(idx.occurrences(b"fs"), Vec::<usize>::new());
}

#[test]
fn offsets_resolve_to_their_owning_record() {
    let records = vec![rec("Asdf", 1), rec("Sadf", 2), rec("Qu", 3)];
    let idx = SubstringIndex::build(&records);
    assert_eq!(idx.boundaries, vec![0, 5, 10]);
    assert_eq!(idx.record_for_offset(0), 0);
    assert_eq!(idx.record_for_offset(3), 0);
    assert_eq!(idx.record_for_offset(5), 1);
    assert_eq!(idx.record_for_offset(7), 1);
    assert_eq!(idx.record_for_offset(10), 2);
    assert_eq!(idx.record_for_offset(11), 2);
}

#[test]
fn repeated_substring_in_one_name_yields_repeated_hits() {
    let records = vec![rec("Banana", 1)];
    let idx = SubstringIndex::build(&records);
    let hits = idx.occurrences(b"an");
    assert_eq!(hits, vec![1, 3]);
    for o in hits {
        assert_eq!(idx.record_for_offset(o), 0);
    }
}

#[test]
fn store_builds_its_index_over_lowercased_names() {
    let records = vec![rec("Asdf", 1), rec("Qwerty", 2), rec("Quebec", 3)];
    let g = Gazetteer::new(records).ok().unwrap();
    assert_eq!(g.index.corpus, b"asdf\x00qwerty\x00quebec".to_vec());
    assert_eq!(g.index.boundaries, vec![0, 5, 12]);
    let hits = g.index.occurrences(b"q");
    assert_eq!(hits, vec![5, 12]);
    assert_eq!(g.index.record_for_offset(5), 1);
    assert_eq!(g.index.record_for_offset(12), 2);
}
