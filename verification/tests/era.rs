use era_journal::digest::CHECKSUM_SIZE;
use era_journal::era::{JournalEra, JournalOperation};
use era_journal::error::ErrorKind;
use era_journal::transaction::{Operation, Transaction};

fn mixed_transaction() -> Transaction {
    let mut tx = Transaction::default();
    tx.insert(b"key", b"value");
    tx.insert(b"key2", b"value");
    tx.insert(b"key3", b"value");
    tx.insert(b"key2", b"value2");
    tx.delete(b"key3");
    tx
}

const DIGEST: [u8; 32] = [
    0x56, 0x63, 0xc1, 0xca, 0x5a, 0x6d, 0x4e, 0xd2, 0xb1, 0xe9, 0x70, 0x87, 0x64, 0x79, 0xc2, 0x7c,
    0x67, 0x42, 0x44, 0x52, 0x52, 0x37, 0x78, 0xc5, 0x6b, 0x7a, 0x8a, 0x89, 0xe5, 0xde, 0xf1, 0x3a,
];

#[test]
fn created_content_is_digest_then_payload() {
    let tx = mixed_transaction();
    let content = JournalEra::create(&tx);
    assert_eq!(CHECKSUM_SIZE, 32);
    assert_eq!(content[..CHECKSUM_SIZE], DIGEST);
    assert_eq!(&content[CHECKSUM_SIZE..], tx.raw());
    assert_eq!(content[..CHECKSUM_SIZE], tiny_keccak::sha3_256(tx.raw()));
    assert_eq!(content.len(), CHECKSUM_SIZE + tx.raw().len());
}

#[test]
fn empty_transaction_makes_an_era_of_the_digest_alone() {
    let content = JournalEra::create(&Transaction::default());
    assert_eq!(content.len(), CHECKSUM_SIZE);
    assert_eq!(content, tiny_keccak::sha3_256(b"").to_vec());
    let era = JournalEra::open("0.era".to_string(), content).unwrap();
    assert_eq!(era.get(b"key"), None);
    assert!(era.iter().is_empty());
}

#[test]
fn last_write_wins_within_an_era() {
    let mut tx = Transaction::default();
    tx.insert(b"k", b"v1");
    tx.insert(b"k", b"v2");
    tx.insert(b"k3", b"v");
    tx.delete(b"k3");
    let era = JournalEra::open("file".to_string(), JournalEra::create(&tx)).unwrap();
    assert_eq!(era.get(b"k"), Some(JournalOperation::Insert(b"v2" as &[u8])));
    assert_eq!(era.get(b"k3"), Some(JournalOperation::Delete));
    assert_eq!(era.get(b"k2"), None);
    assert_eq!(era.get(b""), None);
}

#[test]
fn insert_after_delete_is_found_again() {
    let mut tx = Transaction::default();
    tx.delete(b"k");
    tx.insert(b"k", b"back");
    let era = JournalEra::open("file".to_string(), JournalEra::create(&tx)).unwrap();
    assert_eq!(era.get(b"k"), Some(JournalOperation::Insert(b"back" as &[u8])));
}

#[test]
fn iter_is_sorted_deduplicated_and_the_same_at_each_call() {
    let era = JournalEra::open("file".to_string(), JournalEra::create(&mixed_transaction()))
        .unwrap();
    let expected = vec![
        Operation::Insert(b"key", b"value"),
        Operation::Insert(b"key2", b"value2"),
        Operation::Delete(b"key3"),
    ];
    assert_eq!(era.iter(), expected);
    assert_eq!(era.iter(), era.iter());
}

#[test]
fn iter_orders_by_key_not_by_file_position() {
    let mut tx = Transaction::default();
    tx.insert(b"zebra", b"1");
    tx.delete(b"apple");
    tx.insert(b"mango", b"2");
    tx.insert(b"", b"3");
    tx.insert(b"apple", b"4");
    let era = JournalEra::open("file".to_string(), JournalEra::create(&tx)).unwrap();
    assert_eq!(
        era.iter(),
        vec![
            Operation::Insert(b"", b"3"),
            Operation::Insert(b"apple", b"4"),
            Operation::Insert(b"mango", b"2"),
            Operation::Insert(b"zebra", b"1"),
        ]
    );
}

#[test]
fn every_flipped_byte_is_detected() {
    let content = JournalEra::create(&mixed_transaction());
    for at in 0..content.len() {
        for flip in [0x01u8, 0x80, 0xff] {
            let mut changed = content.clone();
            changed[at] ^= flip;
            match JournalEra::open("file".to_string(), changed) {
                Err(ErrorKind::CorruptedJournal(file, _)) => assert_eq!(file, "file"),
                other => panic!("byte {} changed and not detected: {:?}", at, other),
            }
        }
    }
}

#[test]
fn truncated_or_extended_content_is_detected() {
    let content = JournalEra::create(&mixed_transaction());
    for keep in 0..content.len() {
        let cut = content[..keep].to_vec();
        assert!(matches!(
            JournalEra::open("file".to_string(), cut),
            Err(ErrorKind::CorruptedJournal(_, _))
        ));
    }
    let mut longer = content.clone();
    longer.push(0);
    assert!(matches!(
        JournalEra::open("file".to_string(), longer),
        Err(ErrorKind::CorruptedJournal(_, _))
    ));
}

#[test]
fn short_content_shows_what_is_there() {
    assert_eq!(
        JournalEra::open("short".to_string(), vec![0x0a, 0xb0, 0x00]).unwrap_err(),
        ErrorKind::CorruptedJournal(
            "short".to_string(),
            "Expected: [a7 ff c6 f8 bf 1e d7 66 51 c1 47 56 a0 61 d6 62 f5 80 ff 4d e4 3b 49 fa 82 d8 a 4b 80 f8 43 4a], Got: [a b0 0]".to_string()
        )
    );
    assert_eq!(
        JournalEra::open("none".to_string(), Vec::new()).unwrap_err(),
        ErrorKind::CorruptedJournal(
            "none".to_string(),
            "Expected: [a7 ff c6 f8 bf 1e d7 66 51 c1 47 56 a0 61 d6 62 f5 80 ff 4d e4 3b 49 fa 82 d8 a 4b 80 f8 43 4a], Got: []".to_string()
        )
    );
}

#[test]
fn payload_with_matching_digest_must_still_be_operations() {
    let payload = [0u8, 1, 0, 0, 0, 9, 0, 0, 0, b'k'];
    let mut content = tiny_keccak::sha3_256(&payload).to_vec();
    content.extend_from_slice(&payload);
    assert_eq!(
        JournalEra::open("file".to_string(), content).unwrap_err(),
        ErrorKind::CorruptedJournal("file".to_string(), "Invalid operation record".to_string())
    );
}

#[test]
fn delete_hands_back_the_file() {
    let era = JournalEra::open("dir/4.era".to_string(), JournalEra::create(&Transaction::new()))
        .unwrap();
    assert_eq!(era.delete(), "dir/4.era");
}
