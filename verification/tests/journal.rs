use era_journal::era::{JournalEra, JournalOperation};
use era_journal::error::ErrorKind;
use era_journal::journal::Journal;
use era_journal::transaction::Transaction;

fn sample_transaction() -> Transaction {
    let mut tx = Transaction::default();
    tx.insert(b"key", b"value");
    tx.insert(b"key2", b"value");
    tx.insert(b"key3", b"value");
    tx.insert(b"key2", b"value2");
    tx.delete(b"key3");
    tx
}

#[test]
fn test_era_create() {
    let tx = sample_transaction();

    let content = JournalEra::create(&tx);
    let era = JournalEra::open("file".to_string(), content).unwrap();
    assert_eq!(JournalOperation::Insert(b"value" as &[u8]), era.get(b"key").unwrap());
    assert_eq!(JournalOperation::Insert(b"value2" as &[u8]), era.get(b"key2").unwrap());
    assert_eq!(JournalOperation::Delete, era.get(b"key3").unwrap());
    assert_eq!(None, era.get(b"key4"));
}

#[test]
fn test_journal_new() {
    let mut journal = Journal::open("test_journal_new".to_string(), Vec::new()).unwrap();
    for _ in 0..3 {
        let (_, content) = journal.prepare(&Transaction::default()).unwrap();
        journal.push(content).unwrap();
    }
    assert_eq!(journal.len(), 3);

    journal.drain_front(2);

    assert_eq!(journal.len(), 1);
}

#[test]
fn should_detect_corrupted_era() {
    let tx = sample_transaction();
    let mut content = JournalEra::create(&tx);

    // alter hash
    content[0] = 1;
    content[1] = 2;
    content[2] = 3;

    // Try to open era
    assert_eq!(
        JournalEra::open("file".to_string(), content).unwrap_err(),
        ErrorKind::CorruptedJournal(
            "file".into(),
            "Expected: [56 63 c1 ca 5a 6d 4e d2 b1 e9 70 87 64 79 c2 7c 67 42 44 52 52 37 78 c5 6b 7a 8a 89 e5 de f1 3a], Got: [1 2 3 ca 5a 6d 4e d2 b1 e9 70 87 64 79 c2 7c 67 42 44 52 52 37 78 c5 6b 7a 8a 89 e5 de f1 3a]".into()
        )
    );
}

fn era_content(insert: &[(&[u8], &[u8])], delete: &[&[u8]]) -> Vec<u8> {
    let mut tx = Transaction::default();
    for (key, value) in insert {
        tx.insert(key, value);
    }
    for key in delete {
        tx.delete(key);
    }
    JournalEra::create(&tx)
}

fn push(journal: &mut Journal, tx: &Transaction) -> String {
    let (path, content) = journal.prepare(tx).unwrap();
    journal.push(content).unwrap();
    path
}

#[test]
fn open_three_eras() {
    let files = vec![
        ("0.era".to_string(), era_content(&[(b"a", b"0")], &[])),
        ("1.era".to_string(), era_content(&[(b"b", b"1")], &[])),
        ("2.era".to_string(), era_content(&[(b"c", b"2")], &[])),
    ];
    let journal = Journal::open("dir".to_string(), files).unwrap();
    assert_eq!(journal.len(), 3);
    assert_eq!(journal.next_era_index(), 3);
    assert_eq!(journal.dir(), "dir");
    assert_eq!(journal.get(b"a"), Some(b"0" as &[u8]));
    assert_eq!(journal.get(b"b"), Some(b"1" as &[u8]));
    assert_eq!(journal.get(b"c"), Some(b"2" as &[u8]));
    assert_eq!(journal.get(b"d"), None);
}

#[test]
fn open_detects_a_missing_era() {
    let files = vec![
        ("0.era".to_string(), era_content(&[], &[])),
        ("2.era".to_string(), era_content(&[], &[])),
    ];
    assert_eq!(
        Journal::open("dir".to_string(), files).unwrap_err(),
        ErrorKind::JournalEraMissing(1)
    );
}

#[test]
fn open_may_begin_behind_what_was_compacted() {
    let files = vec![
        ("7.era".to_string(), era_content(&[(b"a", b"7")], &[])),
        ("8.era".to_string(), era_content(&[(b"a", b"8")], &[])),
    ];
    let mut journal = Journal::open("dir".to_string(), files).unwrap();
    assert_eq!(journal.len(), 2);
    assert_eq!(journal.next_era_index(), 9);
    assert_eq!(journal.get(b"a"), Some(b"8" as &[u8]));
    assert_eq!(push(&mut journal, &Transaction::default()), "dir/9.era");
}

#[test]
fn open_refuses_a_name_that_is_no_era() {
    let files = vec![
        ("0.era".to_string(), era_content(&[], &[])),
        ("one.era".to_string(), vec![1, 2, 3]),
    ];
    assert_eq!(
        Journal::open("dir".to_string(), files).unwrap_err(),
        ErrorKind::InvalidEraName("one.era".to_string())
    );
}

#[test]
fn open_reports_the_first_corrupted_era() {
    let mut second = era_content(&[(b"b", b"1")], &[]);
    let last = second.len() - 1;
    second[last] ^= 1;
    let files = vec![
        ("0.era".to_string(), era_content(&[(b"a", b"0")], &[])),
        ("1.era".to_string(), second),
        ("2.era".to_string(), vec![0; 3]),
    ];
    match Journal::open("dir".to_string(), files).unwrap_err() {
        ErrorKind::CorruptedJournal(file, message) => {
            assert_eq!(file, "dir/1.era");
            assert!(message.starts_with("Expected: ["));
        }
        other => panic!("{:?}", other),
    }
}

#[test]
fn names_are_checked_before_contents() {
    let files = vec![
        ("0.era".to_string(), vec![0; 3]),
        ("2.era".to_string(), era_content(&[], &[])),
    ];
    assert_eq!(
        Journal::open("dir".to_string(), files).unwrap_err(),
        ErrorKind::JournalEraMissing(1)
    );
}

#[test]
fn later_eras_shadow_earlier_ones() {
    let files = vec![
        ("0.era".to_string(), era_content(&[(b"gone", b"old"), (b"kept", b"first")], &[])),
        ("1.era".to_string(), era_content(&[(b"kept", b"second")], &[])),
        ("2.era".to_string(), era_content(&[], &[b"gone"])),
    ];
    let journal = Journal::open("dir".to_string(), files).unwrap();
    assert_eq!(journal.get(b"gone"), None);
    assert_eq!(journal.get(b"kept"), Some(b"second" as &[u8]));
}

#[test]
fn insert_after_delete_in_a_later_era_is_found() {
    let files = vec![
        ("0.era".to_string(), era_content(&[(b"k", b"v0")], &[])),
        ("1.era".to_string(), era_content(&[], &[b"k"])),
        ("2.era".to_string(), era_content(&[(b"k", b"v2")], &[])),
    ];
    let journal = Journal::open("dir".to_string(), files).unwrap();
    assert_eq!(journal.get(b"k"), Some(b"v2" as &[u8]));
}

#[test]
fn drain_front_hands_out_the_oldest_in_order() {
    let mut journal = Journal::open("dir".to_string(), Vec::new()).unwrap();
    for (key, value) in [(b"a", b"0"), (b"b", b"1"), (b"c", b"2"), (b"a", b"3")] {
        let mut tx = Transaction::default();
        tx.insert(key, value);
        push(&mut journal, &tx);
    }
    assert_eq!(journal.len(), 4);
    assert_eq!(journal.get(b"a"), Some(b"3" as &[u8]));
    assert_eq!(journal.get(b"b"), Some(b"1" as &[u8]));

    let drained = journal.drain_front(2);
    assert_eq!(journal.len(), 2);
    assert_eq!(drained.len(), 2);
    assert_eq!(drained[0].get(b"a"), Some(JournalOperation::Insert(b"0" as &[u8])));
    assert_eq!(drained[1].get(b"b"), Some(JournalOperation::Insert(b"1" as &[u8])));
    let files: Vec<String> = drained.into_iter().map(|era| era.delete()).collect();
    assert_eq!(files, vec!["dir/0.era", "dir/1.era"]);

    // only the drained eras held `b`; `a` and `c` are still answered
    assert_eq!(journal.get(b"b"), None);
    assert_eq!(journal.get(b"a"), Some(b"3" as &[u8]));
    assert_eq!(journal.get(b"c"), Some(b"2" as &[u8]));

    assert!(journal.drain_front(0).is_empty());
    assert_eq!(journal.len(), 2);
    assert_eq!(journal.drain_front(2).len(), 2);
    assert_eq!(journal.len(), 0);
    assert_eq!(journal.get(b"a"), None);
}

#[test]
fn indices_are_never_given_twice() {
    let mut journal = Journal::open("dir".to_string(), Vec::new()).unwrap();
    assert_eq!(journal.next_era_index(), 0);
    assert_eq!(push(&mut journal, &Transaction::default()), "dir/0.era");
    assert_eq!(push(&mut journal, &Transaction::default()), "dir/1.era");
    let mut last = Transaction::default();
    last.insert(b"last", b"pushed");
    assert_eq!(push(&mut journal, &last), "dir/2.era");
    assert_eq!(journal.len(), 3);

    journal.drain_front(2);
    assert_eq!(journal.len(), 1);
    assert_eq!(journal.get(b"last"), Some(b"pushed" as &[u8]));

    assert_eq!(push(&mut journal, &Transaction::default()), "dir/3.era");
    assert_eq!(journal.len(), 2);
    let files: Vec<String> = journal.drain_front(2).into_iter().map(|era| era.delete()).collect();
    assert_eq!(files, vec!["dir/2.era", "dir/3.era"]);
    assert_eq!(push(&mut journal, &Transaction::default()), "dir/4.era");
}

#[test]
fn an_index_is_taken_only_when_the_era_arrives() {
    let mut journal = Journal::open("dir".to_string(), Vec::new()).unwrap();
    let (path, _) = journal.prepare(&Transaction::default()).unwrap();
    assert_eq!(path, "dir/0.era");
    assert_eq!(journal.next_era_index(), 0);
    // the era never arrived: the next one is made for the same index
    let (path, content) = journal.prepare(&Transaction::default()).unwrap();
    assert_eq!(path, "dir/0.era");
    assert_eq!(journal.len(), 0);
    journal.push(content).unwrap();
    assert_eq!(journal.len(), 1);
    assert_eq!(journal.next_era_index(), 1);
    let (path, _) = journal.prepare(&Transaction::default()).unwrap();
    assert_eq!(path, "dir/1.era");
}

#[test]
fn push_of_corrupted_content_changes_nothing() {
    let mut journal = Journal::open("dir".to_string(), Vec::new()).unwrap();
    let mut first = Transaction::default();
    first.insert(b"a", b"0");
    assert_eq!(push(&mut journal, &first), "dir/0.era");

    let mut tx = Transaction::default();
    tx.insert(b"k", b"v");
    let (path, mut content) = journal.prepare(&tx).unwrap();
    assert_eq!(path, "dir/1.era");
    content[40] ^= 0x10;
    assert!(matches!(
        journal.push(content),
        Err(ErrorKind::CorruptedJournal(file, _)) if file == "dir/1.era"
    ));
    assert_eq!(journal.len(), 1);
    assert_eq!(journal.get(b"k"), None);
    assert_eq!(journal.get(b"a"), Some(b"0" as &[u8]));
    assert_eq!(journal.next_era_index(), 1);

    // the push that follows leaves no gap behind the era that is there
    assert_eq!(push(&mut journal, &tx), "dir/1.era");
    assert_eq!(journal.len(), 2);
    assert_eq!(journal.next_era_index(), 2);
    assert_eq!(journal.get(b"k"), Some(b"v" as &[u8]));
    let files: Vec<String> = journal.drain_front(2).into_iter().map(|era| era.delete()).collect();
    assert_eq!(files, vec!["dir/0.era", "dir/1.era"]);
}

#[test]
fn prepare_and_push_fail_once_the_indices_are_used_up() {
    let files = vec![("18446744073709551614.era".to_string(), era_content(&[], &[]))];
    let mut journal = Journal::open("dir".to_string(), files).unwrap();
    assert_eq!(journal.next_era_index(), u64::MAX);
    assert_eq!(
        journal.prepare(&Transaction::default()).unwrap_err(),
        ErrorKind::InvalidEraName("dir/18446744073709551615.era".to_string())
    );
    assert_eq!(journal.next_era_index(), u64::MAX);
    assert_eq!(journal.len(), 1);
    assert_eq!(
        journal.push(era_content(&[], &[])).unwrap_err(),
        ErrorKind::InvalidEraName("dir/18446744073709551615.era".to_string())
    );
    assert_eq!(journal.next_era_index(), u64::MAX);
    assert_eq!(journal.len(), 1);
}
