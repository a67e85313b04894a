use era_journal::dir::{
    era_files, era_index, era_path, find_missing_index, has_era_extension, next_era_filename,
    next_era_index, sort_indices, MAX_ERA_INDEX,
};
use era_journal::error::ErrorKind;

fn names(list: &[&str]) -> Vec<String> {
    list.iter().map(|name| name.to_string()).collect()
}

#[test]
fn era_index_reads_the_decimal_index() {
    assert_eq!(era_index("0.era"), Ok(0));
    assert_eq!(era_index("7.era"), Ok(7));
    assert_eq!(era_index("10.era"), Ok(10));
    assert_eq!(era_index("1234567890.era"), Ok(1234567890));
    assert_eq!(era_index("18446744073709551614.era"), Ok(MAX_ERA_INDEX));
}

#[test]
fn era_index_refuses_other_names() {
    for name in [
        "",
        ".era",
        "era",
        "0",
        "0.er",
        "0.era ",
        "0.ERA",
        "00.era",
        "01.era",
        "+1.era",
        "-1.era",
        " 1.era",
        "1 .era",
        "1a.era",
        "x.era",
        "1.era.era",
        "dir/1.era",
        "١.era",
        "é.era",
        "18446744073709551615.era",
        "18446744073709551616.era",
        "99999999999999999999.era",
        "100000000000000000000000000000.era",
    ] {
        assert_eq!(era_index(name), Err(ErrorKind::InvalidEraName(name.to_string())), "{}", name);
    }
}

#[test]
fn has_era_extension_looks_at_the_end_only() {
    assert!(has_era_extension("0.era"));
    assert!(has_era_extension(".era"));
    assert!(has_era_extension("x.era"));
    assert!(has_era_extension("é.era"));
    assert!(!has_era_extension("0.era.bak"));
    assert!(!has_era_extension("era"));
    assert!(!has_era_extension(""));
    assert!(!has_era_extension("0.erá"));
}

#[test]
fn next_era_filename_joins_directory_and_name() {
    assert_eq!(next_era_filename("dir", 0), "dir/0.era");
    assert_eq!(next_era_filename("dir/", 12), "dir/12.era");
    assert_eq!(next_era_filename("", 5), "5.era");
    assert_eq!(next_era_filename("/", 5), "/5.era");
    assert_eq!(next_era_filename("/tmp/journal", 18446744073709551615), "/tmp/journal/18446744073709551615.era");
    assert_eq!(era_path("a/b", "3.era"), "a/b/3.era");
}

#[test]
fn next_era_index_is_one_past_the_last() {
    assert_eq!(next_era_index(&[]), Ok(0));
    assert_eq!(next_era_index(&names(&["0.era"])), Ok(1));
    assert_eq!(next_era_index(&names(&["7.era", "8.era", "9.era"])), Ok(10));
    assert_eq!(
        next_era_index(&names(&["18446744073709551614.era"])),
        Ok(18446744073709551615)
    );
    assert_eq!(
        next_era_index(&names(&["0.era", "one"])),
        Err(ErrorKind::InvalidEraName("one".to_string()))
    );
}

#[test]
fn find_missing_index_names_the_first_gap() {
    assert_eq!(find_missing_index(&vec![]), None);
    assert_eq!(find_missing_index(&vec![5]), None);
    assert_eq!(find_missing_index(&vec![0, 1, 2]), None);
    assert_eq!(find_missing_index(&vec![0, 2]), Some(1));
    assert_eq!(find_missing_index(&vec![3, 4, 6, 8]), Some(5));
    assert_eq!(find_missing_index(&vec![1, 1]), Some(2));
    assert_eq!(find_missing_index(&vec![2, 1]), Some(3));
}

#[test]
fn sort_indices_sorts_by_number() {
    assert_eq!(sort_indices(&vec![]), Vec::<u64>::new());
    assert_eq!(sort_indices(&vec![10, 9, 100, 0, 9]), vec![0, 9, 9, 10, 100]);
}

#[test]
fn era_files_needs_a_directory() {
    assert_eq!(
        era_files("no/such/dir", None),
        Err(ErrorKind::InvalidJournalLocation("no/such/dir".to_string()))
    );
}

#[test]
fn era_files_of_an_empty_directory() {
    assert_eq!(era_files("dir", Some(Vec::new())), Ok(Vec::new()));
    assert_eq!(era_files("dir", Some(names(&["README", "0.era.tmp"]))), Ok(Vec::new()));
}

#[test]
fn era_files_are_sorted_by_index_not_by_text() {
    let listing = names(&["10.era", "notes.txt", "9.era", "11.era", "8.era"]);
    assert_eq!(
        era_files("dir", Some(listing)),
        Ok(names(&["8.era", "9.era", "10.era", "11.era"]))
    );
}

#[test]
fn era_files_detect_a_gap() {
    assert_eq!(
        era_files("dir", Some(names(&["0.era", "2.era"]))),
        Err(ErrorKind::JournalEraMissing(1))
    );
    assert_eq!(
        era_files("dir", Some(names(&["2.era", "1.era", "0.era"]))),
        Ok(names(&["0.era", "1.era", "2.era"]))
    );
    assert_eq!(
        era_files("dir", Some(names(&["5.era", "3.era", "7.era", "4.era"]))),
        Err(ErrorKind::JournalEraMissing(6))
    );
}

#[test]
fn era_files_refuse_an_era_name_without_index() {
    assert_eq!(
        era_files("dir", Some(names(&["0.era", "one.era", "2.era", "01.era"]))),
        Err(ErrorKind::InvalidEraName("one.era".to_string()))
    );
}
