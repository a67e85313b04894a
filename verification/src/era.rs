//! Eras: the immutable, checksummed segments of the journal.
//!
//! An era's file holds a 32-byte digest and, behind it, one serialized
//! transaction of which it is the SHA3-256 digest.

use crate::cache::{
    cache_memory, find, is_index_of, last_operation, lemma_index_miss, lemma_index_unique,
    lemma_last_operation_absent, lemma_last_operation_found, span_views, spans_fit,
};
use crate::digest::{hex, hex_text, sha3_256, sha3_256_digest, CHECKSUM_SIZE};
use crate::error::{ErrorKind, ErrorView};
use crate::slice::{compare, Order};
use crate::transaction::{
    decode_operations, operation_views, write_bytes, Operation, OperationSpan, OperationView,
    Transaction,
};
use vstd::pervasive::unreached;
use vstd::prelude::*;
use vstd::slice::slice_subrange;

verus! {

/// What an era holds for a key: the value that was last inserted, or the
/// mark that the key was last deleted.
#[derive(Debug, PartialEq, Eq)]
pub enum JournalOperation<T> {
    Insert(T),
    Delete,
}

/// An era as a mathematical value: its file and the operations of its
/// transaction, in file order.
pub struct EraView {
    pub file: Seq<char>,
    pub operations: Seq<OperationView>,
}

/// The number of bytes at the front of `content` that hold the digest: 32,
/// or all of them where there are fewer.
pub open spec fn checksum_len(content: Seq<u8>) -> int {
    if content.len() < CHECKSUM_SIZE {
        content.len() as int
    } else {
        CHECKSUM_SIZE as int
    }
}

/// The digest that `content` carries at its front.
pub open spec fn stored_checksum(content: Seq<u8>) -> Seq<u8> {
    content.take(checksum_len(content))
}

/// What `content` holds behind the digest.
pub open spec fn stored_payload(content: Seq<u8>) -> Seq<u8> {
    content.skip(checksum_len(content))
}

/// The diagnostic of a digest that does not match.
pub open spec fn checksum_diagnostic(expected: Seq<u8>, got: Seq<u8>) -> Seq<char> {
    "Expected: "@ + hex_text(expected) + ", Got: "@ + hex_text(got)
}

/// The diagnostic of a payload that is no serialized transaction.
pub open spec fn payload_diagnostic() -> Seq<char> {
    "Invalid operation record"@
}

/// What opening `content` as the era of `file` comes to: the era, or the
/// corruption that was found. The digest is checked first.
pub open spec fn era_of(file: Seq<char>, content: Seq<u8>) -> Result<EraView, ErrorView> {
    let payload = stored_payload(content);
    let digest = sha3_256_digest(payload);
    if digest != stored_checksum(content) {
        Err(ErrorView::CorruptedJournal(file, checksum_diagnostic(digest, stored_checksum(content))))
    } else {
        match decode_operations(payload) {
            Some(operations) => Ok(EraView { file, operations }),
            None => Err(ErrorView::CorruptedJournal(file, payload_diagnostic())),
        }
    }
}

/// What an era answers for a key whose last operation is `last`.
pub open spec fn stored_operation(last: Option<OperationView>) -> Option<
    JournalOperation<Seq<u8>>,
> {
    match last {
        Some(OperationView::Insert(_, value)) => Some(JournalOperation::Insert(value)),
        Some(OperationView::Delete(_)) => Some(JournalOperation::Delete),
        None => None,
    }
}

/// An era's answer with the value's bytes as a sequence.
pub open spec fn answer_view(answer: Option<JournalOperation<&[u8]>>) -> Option<
    JournalOperation<Seq<u8>>,
> {
    match answer {
        Some(JournalOperation::Insert(value)) => Some(JournalOperation::Insert(value@)),
        Some(JournalOperation::Delete) => Some(JournalOperation::Delete),
        None => None,
    }
}

/// Builds the diagnostic of a digest that does not match.
fn checksum_message(expected: &[u8], got: &[u8]) -> (message: String)
    ensures
        message@ == checksum_diagnostic(expected@, got@),
{
    let mut message = String::from_str("Expected: ");
    message.append(hex(expected).as_str());
    message.append(", Got: ");
    message.append(hex(got).as_str());
    message
}

/// One open era: the content of its file and the index built from it.
#[derive(Debug)]
pub struct JournalEra {
    file: String,
    content: Vec<u8>,
    cache: Vec<OperationSpan>,
}

impl View for JournalEra {
    type V = EraView;

    closed spec fn view(&self) -> EraView {
        EraView {
            file: self.file@,
            operations: decode_operations(stored_payload(self.content@)).unwrap(),
        }
    }
}

impl JournalEra {
    #[verifier::type_invariant]
    spec fn well_formed(&self) -> bool {
        let payload = stored_payload(self.content@);
        &&& self.content@.len() >= CHECKSUM_SIZE
        &&& sha3_256_digest(payload) == stored_checksum(self.content@)
        &&& decode_operations(payload) is Some
        &&& spans_fit(self.cache@, payload.len())
        &&& is_index_of(span_views(self.cache@, payload), decode_operations(payload).unwrap())
    }

    /// The content of the era's file.
    pub closed spec fn content(&self) -> Seq<u8> {
        self.content@
    }

    /// The content of the file of a new era that holds `transaction`: the
    /// digest of its serialized form, then that form. Opened, this content
    /// gives the transaction's operations back.
    pub fn create(transaction: &Transaction) -> (content: Vec<u8>)
        ensures
            content@ == sha3_256_digest(transaction.raw_bytes()) + transaction.raw_bytes(),
            content@.len() == CHECKSUM_SIZE + transaction.raw_bytes().len(),
            stored_checksum(content@) == sha3_256_digest(transaction.raw_bytes()),
            stored_payload(content@) == transaction.raw_bytes(),
            forall|file: Seq<char>| #[trigger]
                era_of(file, content@) == Ok::<EraView, ErrorView>(
                    (EraView { file, operations: transaction@ }),
                ),
    {
        let raw = transaction.raw();
        let hash = sha3_256(raw);
        let mut content: Vec<u8> = Vec::new();
        write_bytes(&mut content, hash.as_slice());
        write_bytes(&mut content, raw);
        proof {
            assert(content@ =~= hash@ + raw@);
            assert(stored_checksum(content@) =~= hash@);
            assert(stored_payload(content@) =~= raw@);
        }
        content
    }

    /// Opens the era of `file` from the content of that file: checks the
    /// digest, then builds the index in one scan of the payload.
    pub fn open(file: String, content: Vec<u8>) -> (opened: Result<JournalEra, ErrorKind>)
        ensures
            match era_of(file@, content@) {
                Ok(era) => opened matches Ok(e) && e@ == era && e.content() == content@,
                Err(error) => opened matches Err(e) && e@ == error,
            },
            content@.len() < CHECKSUM_SIZE ==> opened is Err,
            opened is Ok ==> content@.len() >= CHECKSUM_SIZE,
    {
        let size: usize = content.len();
        let header: usize = if size < CHECKSUM_SIZE {
            size
        } else {
            CHECKSUM_SIZE
        };
        let checksum = slice_subrange(content.as_slice(), 0, header);
        let data = slice_subrange(content.as_slice(), header, size);
        let hash = sha3_256(data);
        match compare(hash.as_slice(), checksum) {
            Order::Equal => {},
            _ => {
                let message = checksum_message(hash.as_slice(), checksum);
                return Err(ErrorKind::CorruptedJournal(file, message));
            },
        }
        let cache = match cache_memory(data) {
            Some(cache) => cache,
            None => {
                let message = String::from_str("Invalid operation record");
                return Err(ErrorKind::CorruptedJournal(file, message));
            },
        };
        Ok(JournalEra { file, content, cache })
    }

    /// The serialized transaction: the content behind the digest.
    fn payload(&self) -> (payload: &[u8])
        ensures
            payload@ == stored_payload(self.content@),
    {
        proof {
            use_type_invariant(self);
        }
        slice_subrange(self.content.as_slice(), CHECKSUM_SIZE, self.content.len())
    }

    /// What the era holds for `key`: nothing where its transaction never
    /// mentions the key, the value where the last operation on the key
    /// inserts it, the mark of deletion where the last one deletes it.
    pub fn get<'a>(&'a self, key: &[u8]) -> (answer: Option<JournalOperation<&'a [u8]>>)
        ensures
            answer_view(answer) == stored_operation(last_operation(self@.operations, key@)),
    {
        proof {
            use_type_invariant(self);
        }
        let payload = self.payload();
        match find(&self.cache, payload, key) {
            Ok(at) => match self.cache[at].value {
                Some(value) => Some(JournalOperation::Insert(value.as_slice(payload))),
                None => Some(JournalOperation::Delete),
            },
            Err(at) => {
                proof {
                    lemma_index_miss(
                        span_views(self.cache@, payload@),
                        self@.operations,
                        key@,
                        at as int,
                    );
                }
                None
            },
        }
    }

    /// The canonical form of the era's transaction: one operation for each
    /// key that it mentions, the last one on that key, in the order of the
    /// keys. It is built anew from the payload at each call.
    pub fn iter<'a>(&'a self) -> (operations: Vec<Operation<'a>>)
        ensures
            is_index_of(operation_views(operations@), self@.operations),
    {
        proof {
            use_type_invariant(self);
        }
        let payload = self.payload();
        let spans = match cache_memory(payload) {
            Some(spans) => spans,
            None => unreached(),
        };
        let mut operations: Vec<Operation<'a>> = Vec::new();
        let mut i: usize = 0;
        while i < spans.len()
            invariant
                i <= spans@.len(),
                spans_fit(spans@, payload@.len()),
                operations@.len() == i,
                forall|j: int|
                    0 <= j < i ==> (#[trigger] operations@[j])@ == spans@[j].operation_in(payload@),
            decreases spans@.len() - i,
        {
            operations.push(spans[i].resolve(payload));
            i += 1;
        }
        assert(operation_views(operations@) =~= span_views(spans@, payload@));
        operations
    }

    /// Gives the era up and hands back the file to remove.
    pub fn delete(self) -> (file: String)
        ensures
            file@ == self@.file,
    {
        self.file
    }
}

/// For a key whose last mention in a transaction is the operation at `at`,
/// the era of that transaction answers with the value of that operation
/// where it is an insert, and with the mark of deletion where it is a
/// delete.
pub proof fn lemma_answer_of_last_mention(operations: Seq<OperationView>, key: Seq<u8>, at: int)
    requires
        0 <= at < operations.len(),
        operations[at].key() == key,
        forall|i: int| at < i < operations.len() ==> (#[trigger] operations[i]).key() != key,
    ensures
        stored_operation(last_operation(operations, key)) == match operations[at] {
            OperationView::Insert(_, value) => Some(JournalOperation::Insert(value)),
            OperationView::Delete(_) => Some(JournalOperation::Delete),
        },
{
    lemma_last_operation_found(operations, key, at);
}

/// For a key that a transaction never mentions, the era of that transaction
/// has no answer.
pub proof fn lemma_answer_of_no_mention(operations: Seq<OperationView>, key: Seq<u8>)
    requires
        forall|i: int| 0 <= i < operations.len() ==> (#[trigger] operations[i]).key() != key,
    ensures
        stored_operation(last_operation(operations, key)) is None,
{
    lemma_last_operation_absent(operations, key);
}

/// Whatever `iter` returns for an era, it returns at every call: two
/// canonical forms of the same era hold the same operations in the same
/// order.
pub proof fn lemma_iter_is_idempotent(
    operations: Seq<OperationView>,
    first: Seq<Operation>,
    second: Seq<Operation>,
)
    requires
        is_index_of(operation_views(first), operations),
        is_index_of(operation_views(second), operations),
    ensures
        operation_views(first) == operation_views(second),
{
    lemma_index_unique(operation_views(first), operation_views(second), operations);
}

/// Content that does not open is refused as corrupted, with its file named.
pub proof fn lemma_refused_as_corrupted(file: Seq<char>, content: Seq<u8>)
    requires
        era_of(file, content) is Err,
    ensures
        era_of(file, content) matches Err(ErrorView::CorruptedJournal(named, _)) && named == file,
{
}

/// An era's content with one byte changed does not open: a changed byte of
/// the digest never, a changed byte of the payload unless the changed
/// payload has the digest of the old one.
pub proof fn lemma_changed_byte_is_corruption(
    file: Seq<char>,
    content: Seq<u8>,
    at: int,
    byte: u8,
)
    requires
        era_of(file, content) is Ok,
        0 <= at < content.len(),
        byte != content[at],
        at >= checksum_len(content) ==> sha3_256_digest(
            stored_payload(content.update(at, byte)),
        ) != sha3_256_digest(stored_payload(content)),
    ensures
        era_of(file, content.update(at, byte)) matches Err(ErrorView::CorruptedJournal(named, _))
            && named == file,
{
    let changed = content.update(at, byte);
    if at < checksum_len(content) {
        assert(stored_payload(changed) =~= stored_payload(content));
        assert(stored_checksum(changed)[at] == byte);
        assert(stored_checksum(content)[at] == content[at]);
    } else {
        assert(stored_checksum(changed) =~= stored_checksum(content));
    }
}

} // verus!
