use era_journal::cache::{cache_memory, find};
use era_journal::slice::{compare, JournalSlice, Order};
use era_journal::transaction::{read_operation, Operation, Transaction};

#[test]
fn empty_transaction_has_no_bytes() {
    assert_eq!(Transaction::new().raw(), b"");
    assert_eq!(Transaction::default().raw(), b"");
}

#[test]
fn insert_is_tag_lengths_key_value() {
    let mut tx = Transaction::new();
    tx.insert(b"key", b"value");
    assert_eq!(
        tx.raw(),
        [0u8, 3, 0, 0, 0, 5, 0, 0, 0, b'k', b'e', b'y', b'v', b'a', b'l', b'u', b'e']
    );
}

#[test]
fn delete_is_tag_length_key() {
    let mut tx = Transaction::new();
    tx.delete(b"key3");
    assert_eq!(tx.raw(), [1u8, 4, 0, 0, 0, b'k', b'e', b'y', b'3']);
}

#[test]
fn lengths_are_little_endian() {
    let key = vec![7u8; 0x0102];
    let value = vec![9u8; 0x01_0003];
    let mut tx = Transaction::new();
    tx.insert(&key, &value);
    let raw = tx.raw();
    assert_eq!(raw[..9], [0u8, 0x02, 0x01, 0, 0, 0x03, 0x00, 0x01, 0]);
    assert_eq!(raw.len(), 9 + 0x0102 + 0x01_0003);
    let (span, next) = read_operation(raw, 0).unwrap();
    assert_eq!(next, raw.len());
    assert_eq!(span.resolve(raw), Operation::Insert(&key, &value));
}

#[test]
fn operations_follow_one_another() {
    let mut tx = Transaction::new();
    tx.insert(b"a", b"1");
    tx.delete(b"b");
    tx.insert(b"", b"");
    let raw = tx.raw();
    let (first, next) = read_operation(raw, 0).unwrap();
    assert_eq!(first.resolve(raw), Operation::Insert(b"a", b"1"));
    assert_eq!(next, 11);
    let (second, next) = read_operation(raw, next).unwrap();
    assert_eq!(second.resolve(raw), Operation::Delete(b"b"));
    assert_eq!(second.resolve(raw).key(), b"b");
    assert_eq!(next, 17);
    let (third, next) = read_operation(raw, next).unwrap();
    assert_eq!(third.resolve(raw), Operation::Insert(b"", b""));
    assert_eq!(next, raw.len());
    assert!(read_operation(raw, next).is_none());
}

#[test]
fn read_operation_refuses_what_is_no_operation() {
    // unknown tag
    assert!(read_operation(&[2, 0, 0, 0, 0], 0).is_none());
    // too short for the key's length
    assert!(read_operation(&[1, 0, 0, 0], 0).is_none());
    // too short for the value's length
    assert!(read_operation(&[0, 0, 0, 0, 0, 0, 0, 0], 0).is_none());
    // key longer than what is left
    assert!(read_operation(&[1, 2, 0, 0, 0, b'k'], 0).is_none());
    // value longer than what is left
    assert!(read_operation(&[0, 1, 0, 0, 0, 1, 0, 0, 0, b'k'], 0).is_none());
    // lengths near the top of 32 bits
    assert!(read_operation(&[0, 255, 255, 255, 255, 255, 255, 255, 255, 1], 0).is_none());
}

#[test]
fn cache_memory_keeps_the_last_operation_of_each_key_in_key_order() {
    let mut tx = Transaction::new();
    tx.insert(b"m", b"1");
    tx.insert(b"b", b"2");
    tx.delete(b"m");
    tx.insert(b"z", b"3");
    tx.insert(b"b", b"4");
    let raw = tx.raw();
    let index = cache_memory(raw).unwrap();
    let found: Vec<Operation> = index.iter().map(|span| span.resolve(raw)).collect();
    assert_eq!(
        found,
        vec![
            Operation::Insert(b"b", b"4"),
            Operation::Delete(b"m"),
            Operation::Insert(b"z", b"3"),
        ]
    );
    assert_eq!(find(&index, raw, b"b"), Ok(0));
    assert_eq!(find(&index, raw, b"m"), Ok(1));
    assert_eq!(find(&index, raw, b"z"), Ok(2));
    assert_eq!(find(&index, raw, b"a"), Err(0));
    assert_eq!(find(&index, raw, b"c"), Err(1));
    assert_eq!(find(&index, raw, b"zz"), Err(3));
}

#[test]
fn cache_memory_refuses_a_broken_tail() {
    let mut tx = Transaction::new();
    tx.insert(b"a", b"1");
    let mut raw = tx.raw().to_vec();
    raw.push(1);
    assert!(cache_memory(&raw).is_none());
    assert!(cache_memory(&[]).unwrap().is_empty());
}

#[test]
fn compare_is_lexicographic() {
    assert_eq!(compare(b"", b""), Order::Equal);
    assert_eq!(compare(b"", b"a"), Order::Less);
    assert_eq!(compare(b"a", b""), Order::Greater);
    assert_eq!(compare(b"key", b"key2"), Order::Less);
    assert_eq!(compare(b"key3", b"key2"), Order::Greater);
    assert_eq!(compare(b"b", b"ab"), Order::Greater);
    assert_eq!(compare(&[0xff], &[0x00, 0x01]), Order::Greater);
    assert_eq!(compare(b"same", b"same"), Order::Equal);
}

#[test]
fn journal_slice_shows_its_part_of_the_buffer() {
    let memory = b"0123456789";
    assert_eq!(JournalSlice::new(2, 3).as_slice(memory), b"234");
    assert_eq!(JournalSlice::new(0, 10).as_slice(memory), memory);
    assert_eq!(JournalSlice::new(10, 0).as_slice(memory), b"");
}
