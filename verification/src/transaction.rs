//! Transactions: ordered batches of key mutations, and their serialized form.
//!
//! A transaction is serialized as its operations one after another. An
//! insert is the tag 0, the key's length and the value's length as 32-bit
//! little-endian numbers, the key and the value; a delete is the tag 1, the
//! key's length and the key.

use crate::slice::JournalSlice;
use vstd::prelude::*;

verus! {

/// The tag byte of an insert.
pub const INSERT: u8 = 0;

/// The tag byte of a delete.
pub const DELETE: u8 = 1;

/// A mutation of one key, as a mathematical value.
pub enum OperationView {
    Insert(Seq<u8>, Seq<u8>),
    Delete(Seq<u8>),
}

impl OperationView {
    /// The key that the operation is about.
    pub open spec fn key(self) -> Seq<u8> {
        match self {
            OperationView::Insert(key, _) => key,
            OperationView::Delete(key) => key,
        }
    }

    /// The lengths of key and value fit the 32 bits that the format gives
    /// them.
    pub open spec fn encodable(self) -> bool {
        match self {
            OperationView::Insert(key, value) => key.len() <= u32::MAX && value.len() <= u32::MAX,
            OperationView::Delete(key) => key.len() <= u32::MAX,
        }
    }
}

/// A mutation of one key, its bytes borrowed.
#[derive(Clone, Copy, Debug, PartialEq, Eq)]
pub enum Operation<'a> {
    /// Insert key-value.
    Insert(&'a [u8], &'a [u8]),
    /// Delete key.
    Delete(&'a [u8]),
}

impl<'a> View for Operation<'a> {
    type V = OperationView;

    open spec fn view(&self) -> OperationView {
        match self {
            Operation::Insert(key, value) => OperationView::Insert(key@, value@),
            Operation::Delete(key) => OperationView::Delete(key@),
        }
    }
}

impl<'a> Operation<'a> {
    /// The key that the operation is about.
    pub fn key(&self) -> (key: &'a [u8])
        ensures
            key@ == self@.key(),
    {
        match self {
            Operation::Insert(key, _) => key,
            Operation::Delete(key) => key,
        }
    }
}

/// The views of a sequence of operations.
pub open spec fn operation_views(operations: Seq<Operation>) -> Seq<OperationView> {
    Seq::new(operations.len(), |i: int| operations[i]@)
}

/// A length as the format writes it: four bytes, least significant first.
pub open spec fn length_bytes(n: nat) -> Seq<u8> {
    seq![
        (n % 256) as u8,
        (n / 256 % 256) as u8,
        (n / 65536 % 256) as u8,
        (n / 16777216 % 256) as u8,
    ]
}

/// The length that four bytes spell.
pub open spec fn length_value(bytes: Seq<u8>) -> int
    recommends
        bytes.len() == 4,
{
    bytes[0] + 256 * bytes[1] + 65536 * bytes[2] + 16777216 * bytes[3]
}

/// The serialized form of one operation.
pub open spec fn encode_operation(operation: OperationView) -> Seq<u8> {
    match operation {
        OperationView::Insert(key, value) => seq![INSERT] + length_bytes(key.len()) + length_bytes(
            value.len(),
        ) + key + value,
        OperationView::Delete(key) => seq![DELETE] + length_bytes(key.len()) + key,
    }
}

/// The serialized form of a sequence of operations.
pub open spec fn encode_operations(operations: Seq<OperationView>) -> Seq<u8>
    decreases operations.len(),
{
    if operations.len() == 0 {
        Seq::empty()
    } else {
        encode_operations(operations.drop_last()) + encode_operation(operations.last())
    }
}

/// The operation that `data` begins with, and the number of bytes it takes;
/// `None` where `data` begins with no whole operation.
pub open spec fn decode_operation(data: Seq<u8>) -> Option<(OperationView, int)> {
    if data.len() >= 9 && data[0] == INSERT {
        let key_len = length_value(data.subrange(1, 5));
        let value_len = length_value(data.subrange(5, 9));
        if 9 + key_len + value_len <= data.len() {
            Some(
                (
                    OperationView::Insert(
                        data.subrange(9, 9 + key_len),
                        data.subrange(9 + key_len, 9 + key_len + value_len),
                    ),
                    9 + key_len + value_len,
                ),
            )
        } else {
            None
        }
    } else if data.len() >= 5 && data[0] == DELETE {
        let key_len = length_value(data.subrange(1, 5));
        if 5 + key_len <= data.len() {
            Some((OperationView::Delete(data.subrange(5, 5 + key_len)), 5 + key_len))
        } else {
            None
        }
    } else {
        None
    }
}

/// The operations that `data` is the serialized form of; `None` where it is
/// the serialized form of none.
pub open spec fn decode_operations(data: Seq<u8>) -> Option<Seq<OperationView>>
    decreases data.len(),
{
    if data.len() == 0 {
        Some(Seq::empty())
    } else {
        match decode_operation(data) {
            Some((operation, taken)) if 0 < taken <= data.len() => match decode_operations(
                data.skip(taken),
            ) {
                Some(rest) => Some(seq![operation] + rest),
                None => None,
            },
            _ => None,
        }
    }
}

/// Four bytes spell the length that they were written for.
pub proof fn lemma_length_round_trip(n: nat)
    requires
        n <= u32::MAX,
    ensures
        length_bytes(n).len() == 4,
        length_value(length_bytes(n)) == n,
{
}

/// An operation that fits the format is read back from the front of
/// whatever begins with its serialized form.
pub proof fn lemma_decode_encoded(operation: OperationView, tail: Seq<u8>)
    requires
        operation.encodable(),
    ensures
        decode_operation(encode_operation(operation) + tail) == Some(
            (operation, encode_operation(operation).len() as int),
        ),
{
    let data = encode_operation(operation) + tail;
    match operation {
        OperationView::Insert(key, value) => {
            lemma_length_round_trip(key.len());
            lemma_length_round_trip(value.len());
            assert(data.subrange(1, 5) =~= length_bytes(key.len()));
            assert(data.subrange(5, 9) =~= length_bytes(value.len()));
            assert(data.subrange(9, 9 + key.len() as int) =~= key);
            assert(data.subrange(9 + key.len() as int, 9 + key.len() + value.len() as int) =~= value);
        },
        OperationView::Delete(key) => {
            lemma_length_round_trip(key.len());
            assert(data.subrange(1, 5) =~= length_bytes(key.len()));
            assert(data.subrange(5, 5 + key.len() as int) =~= key);
        },
    }
}

/// What `data` begins with does not depend on what follows it.
pub proof fn lemma_decode_operation_extends(data: Seq<u8>, tail: Seq<u8>)
    requires
        decode_operation(data) is Some,
    ensures
        decode_operation(data + tail) == decode_operation(data),
{
    let longer = data + tail;
    assert(longer[0] == data[0]);
    assert(longer.subrange(1, 5) =~= data.subrange(1, 5));
    if data[0] == INSERT {
        assert(longer.subrange(5, 9) =~= data.subrange(5, 9));
        let key_len = length_value(data.subrange(1, 5));
        let value_len = length_value(data.subrange(5, 9));
        assert(longer.subrange(9, 9 + key_len) =~= data.subrange(9, 9 + key_len));
        assert(longer.subrange(9 + key_len, 9 + key_len + value_len) =~= data.subrange(
            9 + key_len,
            9 + key_len + value_len,
        ));
    } else {
        let key_len = length_value(data.subrange(1, 5));
        assert(longer.subrange(5, 5 + key_len) =~= data.subrange(5, 5 + key_len));
    }
}

/// Appending one serialized operation to serialized operations appends that
/// operation to what they decode to.
pub proof fn lemma_decode_append(data: Seq<u8>, operation: OperationView)
    requires
        decode_operations(data) is Some,
        operation.encodable(),
    ensures
        decode_operations(data + encode_operation(operation)) == Some(
            decode_operations(data).unwrap().push(operation),
        ),
    decreases data.len(),
{
    let record = encode_operation(operation);
    let whole = data + record;
    lemma_decode_encoded(operation, Seq::empty());
    assert(record + Seq::<u8>::empty() =~= record);
    assert(record.len() >= 5);
    if data.len() == 0 {
        assert(whole =~= record);
        assert(whole.skip(record.len() as int) =~= Seq::<u8>::empty());
        assert(decode_operations(Seq::<u8>::empty()) == Some(Seq::<OperationView>::empty()));
        assert(decode_operations(data) == Some(Seq::<OperationView>::empty()));
        assert(seq![operation] + Seq::<OperationView>::empty() =~= Seq::<OperationView>::empty().push(
            operation,
        ));
    } else {
        let (first, taken) = decode_operation(data).unwrap();
        let rest = decode_operations(data.skip(taken)).unwrap();
        assert(decode_operations(data) == Some(seq![first] + rest));
        lemma_decode_operation_extends(data, record);
        assert(decode_operation(whole) == Some((first, taken)));
        assert(whole.skip(taken) =~= data.skip(taken) + record);
        lemma_decode_append(data.skip(taken), operation);
        assert(decode_operations(whole.skip(taken)) == Some(rest.push(operation)));
        assert(seq![first] + rest.push(operation) =~= (seq![first] + rest).push(operation));
    }
}

/// Every operation fits the format.
pub open spec fn all_encodable(operations: Seq<OperationView>) -> bool {
    forall|i: int| 0 <= i < operations.len() ==> (#[trigger] operations[i]).encodable()
}

/// Operations that fit the format are read back from their serialized form.
pub proof fn lemma_decode_encoded_operations(operations: Seq<OperationView>)
    requires
        all_encodable(operations),
    ensures
        decode_operations(encode_operations(operations)) == Some(operations),
    decreases operations.len(),
{
    if operations.len() > 0 {
        let front = operations.drop_last();
        assert forall|i: int| 0 <= i < front.len() implies (#[trigger] front[i]).encodable() by {
            assert(front[i] == operations[i]);
        }
        assert(operations.last() == operations[operations.len() - 1]);
        lemma_decode_encoded_operations(front);
        lemma_decode_append(encode_operations(front), operations.last());
        assert(front.push(operations.last()) =~= operations);
    }
}

/// Four bytes are the bytes of the length that they spell.
pub proof fn lemma_length_bytes_of_value(bytes: Seq<u8>)
    requires
        bytes.len() == 4,
    ensures
        0 <= length_value(bytes) <= u32::MAX,
        length_bytes(length_value(bytes) as nat) == bytes,
{
    let n = length_value(bytes);
    assert(n % 256 == bytes[0]);
    assert(n / 256 % 256 == bytes[1]);
    assert(n / 65536 % 256 == bytes[2]);
    assert(n / 16777216 % 256 == bytes[3]);
    assert(length_bytes(n as nat) =~= bytes);
}

/// The operation that data begins with fits the format, and its serialized
/// form is what the data begins with.
pub proof fn lemma_encode_decoded(data: Seq<u8>)
    requires
        decode_operation(data) is Some,
    ensures
        decode_operation(data).unwrap().0.encodable(),
        0 < decode_operation(data).unwrap().1 <= data.len(),
        encode_operation(decode_operation(data).unwrap().0) == data.take(
            decode_operation(data).unwrap().1,
        ),
{
    lemma_length_bytes_of_value(data.subrange(1, 5));
    if data[0] == INSERT {
        lemma_length_bytes_of_value(data.subrange(5, 9));
    }
    let (operation, taken) = decode_operation(data).unwrap();
    assert(encode_operation(operation) =~= data.take(taken));
}

/// The serialized form of operations begins with that of the first.
pub proof fn lemma_encode_prepend(operation: OperationView, rest: Seq<OperationView>)
    ensures
        encode_operations(seq![operation] + rest) == encode_operation(operation)
            + encode_operations(rest),
    decreases rest.len(),
{
    let all = seq![operation] + rest;
    if rest.len() == 0 {
        assert(all.drop_last() =~= Seq::<OperationView>::empty());
        assert(encode_operations(Seq::<OperationView>::empty()) == Seq::<u8>::empty());
        assert(encode_operations(all) =~= encode_operation(operation) + encode_operations(rest));
    } else {
        assert(all.drop_last() =~= seq![operation] + rest.drop_last());
        assert(all.last() == rest.last());
        lemma_encode_prepend(operation, rest.drop_last());
        assert(encode_operations(all) =~= encode_operation(operation) + encode_operations(rest));
    }
}

/// Data that decodes is the serialized form of what it decodes to, and all
/// of that fits the format: the two forms determine each other.
pub proof fn lemma_encode_decoded_operations(data: Seq<u8>)
    requires
        decode_operations(data) is Some,
    ensures
        all_encodable(decode_operations(data).unwrap()),
        encode_operations(decode_operations(data).unwrap()) == data,
    decreases data.len(),
{
    if data.len() == 0 {
        assert(encode_operations(Seq::<OperationView>::empty()) =~= data);
    } else {
        let (operation, taken) = decode_operation(data).unwrap();
        let rest = decode_operations(data.skip(taken)).unwrap();
        lemma_encode_decoded(data);
        lemma_encode_decoded_operations(data.skip(taken));
        lemma_encode_prepend(operation, rest);
        assert(data.take(taken) + data.skip(taken) =~= data);
        let all = seq![operation] + rest;
        assert forall|i: int| 0 <= i < all.len() implies (#[trigger] all[i]).encodable() by {
            if i > 0 {
                assert(all[i] == rest[i - 1]);
            }
        }
    }
}

/// One operation of a serialized transaction, as views into the buffer that
/// holds it: the key and, for an insert, the value.
#[derive(Clone, Copy, Debug)]
pub struct OperationSpan {
    pub key: JournalSlice,
    pub value: Option<JournalSlice>,
}

impl OperationSpan {
    /// Key and value lie within a buffer of `size` bytes.
    pub open spec fn fits(&self, size: nat) -> bool {
        &&& self.key.fits(size)
        &&& self.value matches Some(value) ==> value.fits(size)
    }

    /// The operation that the span shows of `memory`.
    pub open spec fn operation_in(&self, memory: Seq<u8>) -> OperationView {
        match self.value {
            Some(value) => OperationView::Insert(
                self.key.bytes_in(memory),
                value.bytes_in(memory),
            ),
            None => OperationView::Delete(self.key.bytes_in(memory)),
        }
    }

    /// The operation with its bytes borrowed from `memory`.
    pub fn resolve<'a>(&self, memory: &'a [u8]) -> (operation: Operation<'a>)
        requires
            self.fits(memory@.len()),
        ensures
            operation@ == self.operation_in(memory@),
    {
        let key = self.key.as_slice(memory);
        match self.value {
            Some(value) => Operation::Insert(key, value.as_slice(memory)),
            None => Operation::Delete(key),
        }
    }
}

/// Reads the four length bytes of `data` at offset `at`.
fn read_length(data: &[u8], at: usize) -> (n: u32)
    requires
        at + 4 <= data@.len(),
    ensures
        n == length_value(data@.subrange(at as int, at + 4)),
{
    let b0: u32 = data[at] as u32;
    let b1: u32 = data[at + 1] as u32;
    let b2: u32 = data[at + 2] as u32;
    let b3: u32 = data[at + 3] as u32;
    b0 + 256 * b1 + 65536 * b2 + 16777216 * b3
}

/// Reads the operation that begins at offset `start` of `data`: where it
/// lies, and the offset behind it. `None` where no whole operation begins
/// there.
pub fn read_operation(data: &[u8], start: usize) -> (found: Option<(OperationSpan, usize)>)
    requires
        start <= data@.len(),
    ensures
        match decode_operation(data@.skip(start as int)) {
            Some((operation, taken)) => {
                &&& found matches Some((span, next))
                &&& next == start + taken
                &&& span.fits(data@.len())
                &&& span.operation_in(data@) == operation
            },
            None => found is None,
        },
{
    let size: usize = data.len();
    let left: usize = size - start;
    let ghost rest = data@.skip(start as int);
    if left < 5 {
        return None;
    }
    let tag: u8 = data[start];
    assert(rest[0] == tag);
    assert(rest.subrange(1, 5) =~= data@.subrange(start + 1, start + 5));
    let key_len: usize = read_length(data, start + 1) as usize;
    if tag == INSERT {
        if left < 9 {
            return None;
        }
        assert(rest.subrange(5, 9) =~= data@.subrange(start + 5, start + 9));
        let value_len: usize = read_length(data, start + 5) as usize;
        if key_len > left - 9 || value_len > left - 9 - key_len {
            return None;
        }
        let key = JournalSlice::new(start + 9, key_len);
        let value = JournalSlice::new(start + 9 + key_len, value_len);
        assert(rest.subrange(9, 9 + key_len) =~= key.bytes_in(data@));
        assert(rest.subrange(9 + key_len, 9 + key_len + value_len) =~= value.bytes_in(data@));
        Some((OperationSpan { key, value: Some(value) }, start + 9 + key_len + value_len))
    } else if tag == DELETE {
        if key_len > left - 5 {
            return None;
        }
        let key = JournalSlice::new(start + 5, key_len);
        assert(rest.subrange(5, 5 + key_len) =~= key.bytes_in(data@));
        Some((OperationSpan { key, value: None }, start + 5 + key_len))
    } else {
        None
    }
}

/// Writes `n` as the format's four length bytes onto `buffer`.
fn write_length(buffer: &mut Vec<u8>, n: usize)
    requires
        n <= u32::MAX,
    ensures
        final(buffer)@ == old(buffer)@ + length_bytes(n as nat),
{
    buffer.push((n % 256) as u8);
    buffer.push((n / 256 % 256) as u8);
    buffer.push((n / 65536 % 256) as u8);
    buffer.push((n / 16777216 % 256) as u8);
    assert(buffer@ =~= old(buffer)@ + length_bytes(n as nat));
}

/// Copies `bytes` onto `buffer`.
pub(crate) fn write_bytes(buffer: &mut Vec<u8>, bytes: &[u8])
    ensures
        final(buffer)@ == old(buffer)@ + bytes@,
{
    buffer.extend_from_slice(bytes);
    assert(buffer@ =~= old(buffer)@ + bytes@);
}

/// An ordered batch of inserts and deletes, kept in its serialized form.
#[derive(Debug)]
pub struct Transaction {
    operations: Vec<u8>,
}

impl View for Transaction {
    type V = Seq<OperationView>;

    /// The operations of the transaction, in the order in which they were
    /// added.
    closed spec fn view(&self) -> Seq<OperationView> {
        decode_operations(self.operations@).unwrap()
    }
}

impl Transaction {
    #[verifier::type_invariant]
    spec fn well_formed(&self) -> bool {
        decode_operations(self.operations@) is Some
    }

    /// The bytes of the serialized form.
    pub closed spec fn raw_bytes(&self) -> Seq<u8> {
        self.operations@
    }

    /// A transaction without operations.
    pub fn new() -> (transaction: Transaction)
        ensures
            transaction@ == Seq::<OperationView>::empty(),
            transaction.raw_bytes() == Seq::<u8>::empty(),
    {
        Transaction { operations: Vec::new() }
    }

    /// Adds the insertion of `value` under `key`.
    pub fn insert(&mut self, key: &[u8], value: &[u8])
        requires
            key@.len() <= u32::MAX,
            value@.len() <= u32::MAX,
        ensures
            final(self)@ == old(self)@.push(OperationView::Insert(key@, value@)),
            final(self).raw_bytes() == old(self).raw_bytes() + encode_operation(
                OperationView::Insert(key@, value@),
            ),
    {
        proof {
            use_type_invariant(&*self);
        }
        let mut record: Vec<u8> = Vec::new();
        record.push(INSERT);
        write_length(&mut record, key.len());
        write_length(&mut record, value.len());
        write_bytes(&mut record, key);
        write_bytes(&mut record, value);
        proof {
            assert(record@ =~= encode_operation(OperationView::Insert(key@, value@)));
            lemma_decode_append(self.operations@, OperationView::Insert(key@, value@));
        }
        self.append_record(record);
    }

    /// Adds the deletion of `key`.
    pub fn delete(&mut self, key: &[u8])
        requires
            key@.len() <= u32::MAX,
        ensures
            final(self)@ == old(self)@.push(OperationView::Delete(key@)),
            final(self).raw_bytes() == old(self).raw_bytes() + encode_operation(
                OperationView::Delete(key@),
            ),
    {
        proof {
            use_type_invariant(&*self);
        }
        let mut record: Vec<u8> = Vec::new();
        record.push(DELETE);
        write_length(&mut record, key.len());
        write_bytes(&mut record, key);
        proof {
            assert(record@ =~= encode_operation(OperationView::Delete(key@)));
            lemma_decode_append(self.operations@, OperationView::Delete(key@));
        }
        self.append_record(record);
    }

    /// Appends a serialized operation to the serialized form.
    fn append_record(&mut self, record: Vec<u8>)
        requires
            decode_operations(old(self).operations@ + record@) is Some,
        ensures
            final(self).operations@ == old(self).operations@ + record@,
    {
        let mut record = record;
        let mut bytes: Vec<u8> = Vec::new();
        core::mem::swap(&mut self.operations, &mut bytes);
        bytes.append(&mut record);
        core::mem::swap(&mut self.operations, &mut bytes);
    }

    /// The serialized form: what is hashed and what is written to storage.
    pub fn raw(&self) -> (bytes: &[u8])
        ensures
            bytes@ == self.raw_bytes(),
            bytes@ == encode_operations(self@),
            decode_operations(bytes@) == Some(self@),
            all_encodable(self@),
    {
        proof {
            use_type_invariant(self);
            lemma_encode_decoded_operations(self.operations@);
        }
        self.operations.as_slice()
    }
}

impl Default for Transaction {
    fn default() -> (transaction: Transaction)
        ensures
            transaction@ == Seq::<OperationView>::empty(),
            transaction.raw_bytes() == Seq::<u8>::empty(),
    {
        Transaction::new()
    }
}

} // verus!
