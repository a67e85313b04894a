//! The point-lookup index of a serialized transaction: for every key that
//! the transaction mentions, the last operation on it.
//!
//! The index is a vector of spans into the serialized bytes, sorted by key
//! with no key twice, so that a key is found by binary search and the spans
//! read in order give the transaction's canonical, deduplicated form.

use crate::slice::{compare, lemma_lex_lt_asymmetric, lemma_lex_lt_transitive, lex_lt, Order};
use crate::transaction::{decode_operation, decode_operations, read_operation, OperationSpan, OperationView};
use vstd::prelude::*;

verus! {

/// The last operation on `key` among `operations`; `None` where none of them
/// mentions `key`.
pub open spec fn last_operation(operations: Seq<OperationView>, key: Seq<u8>) -> Option<
    OperationView,
>
    decreases operations.len(),
{
    if operations.len() == 0 {
        None
    } else if operations.last().key() == key {
        Some(operations.last())
    } else {
        last_operation(operations.drop_last(), key)
    }
}

/// The operations that `spans` show of `memory`.
pub open spec fn span_views(spans: Seq<OperationSpan>, memory: Seq<u8>) -> Seq<OperationView> {
    Seq::new(spans.len(), |i: int| spans[i].operation_in(memory))
}

/// Every span lies within a buffer of `size` bytes.
pub open spec fn spans_fit(spans: Seq<OperationSpan>, size: nat) -> bool {
    forall|i: int| 0 <= i < spans.len() ==> (#[trigger] spans[i]).fits(size)
}

/// The keys of `index` rise strictly: it is sorted by key and holds no key
/// twice.
pub open spec fn sorted_by_key(index: Seq<OperationView>) -> bool {
    forall|i: int, j: int|
        0 <= i < j < index.len() ==> lex_lt((#[trigger] index[i]).key(), (#[trigger] index[j]).key())
}

/// Entry `i` of `index` is about `key`.
pub open spec fn has_key_at(index: Seq<OperationView>, i: int, key: Seq<u8>) -> bool {
    0 <= i < index.len() && index[i].key() == key
}

/// `index` is the canonical form of `operations`: sorted by key, and for
/// each key that `operations` mention exactly its last operation.
pub open spec fn is_index_of(index: Seq<OperationView>, operations: Seq<OperationView>) -> bool {
    &&& sorted_by_key(index)
    &&& forall|i: int|
        0 <= i < index.len() ==> last_operation(operations, (#[trigger] index[i]).key()) == Some(
            index[i],
        )
    &&& forall|key: Seq<u8>| #[trigger]
        last_operation(operations, key) is Some ==> exists|i: int| has_key_at(index, i, key)
}

/// What holds of the last operation on a key once one more operation has
/// been added.
pub proof fn lemma_last_operation_push(
    operations: Seq<OperationView>,
    operation: OperationView,
    key: Seq<u8>,
)
    ensures
        last_operation(operations.push(operation), key) == if operation.key() == key {
            Some(operation)
        } else {
            last_operation(operations, key)
        },
{
    assert(operations.push(operation).drop_last() =~= operations);
}

/// Adding an operation on a key that the index does not hold puts it at its
/// place in the order.
pub proof fn lemma_index_insert(
    index: Seq<OperationView>,
    operations: Seq<OperationView>,
    operation: OperationView,
    at: int,
)
    requires
        is_index_of(index, operations),
        0 <= at <= index.len(),
        forall|i: int| 0 <= i < at ==> lex_lt((#[trigger] index[i]).key(), operation.key()),
        forall|i: int|
            at <= i < index.len() ==> lex_lt(operation.key(), (#[trigger] index[i]).key()),
    ensures
        is_index_of(index.insert(at, operation), operations.push(operation)),
{
    let grown = index.insert(at, operation);
    let more = operations.push(operation);
    assert forall|i: int| 0 <= i < grown.len() implies last_operation(
        more,
        (#[trigger] grown[i]).key(),
    ) == Some(grown[i]) by {
        lemma_last_operation_push(operations, operation, grown[i].key());
        if i < at {
            assert(grown[i] == index[i]);
            lemma_lex_lt_asymmetric(index[i].key(), operation.key());
        } else if i > at {
            assert(grown[i] == index[i - 1]);
            lemma_lex_lt_asymmetric(operation.key(), index[i - 1].key());
        }
    }
    assert forall|key: Seq<u8>| #[trigger] last_operation(more, key) is Some implies exists|i: int|
        has_key_at(grown, i, key) by {
        lemma_last_operation_push(operations, operation, key);
        if operation.key() == key {
            assert(has_key_at(grown, at, key));
        } else {
            let i = choose|i: int| has_key_at(index, i, key);
            if i < at {
                assert(has_key_at(grown, i, key));
            } else {
                assert(grown[i + 1] == index[i]);
                assert(has_key_at(grown, i + 1, key));
            }
        }
    }
    assert forall|i: int, j: int| 0 <= i < j < grown.len() implies lex_lt(
        (#[trigger] grown[i]).key(),
        (#[trigger] grown[j]).key(),
    ) by {
        if j < at {
            assert(grown[i] == index[i] && grown[j] == index[j]);
        } else if j == at {
            assert(grown[i] == index[i]);
        } else if i < at {
            assert(grown[i] == index[i] && grown[j] == index[j - 1]);
        } else if i == at {
            assert(grown[j] == index[j - 1]);
        } else {
            assert(grown[i] == index[i - 1] && grown[j] == index[j - 1]);
        }
    }
}

/// Adding an operation on a key that the index holds replaces the entry of
/// that key.
pub proof fn lemma_index_replace(
    index: Seq<OperationView>,
    operations: Seq<OperationView>,
    operation: OperationView,
    at: int,
)
    requires
        is_index_of(index, operations),
        has_key_at(index, at, operation.key()),
    ensures
        is_index_of(index.update(at, operation), operations.push(operation)),
{
    let changed = index.update(at, operation);
    let more = operations.push(operation);
    assert forall|i: int| 0 <= i < changed.len() implies last_operation(
        more,
        (#[trigger] changed[i]).key(),
    ) == Some(changed[i]) by {
        lemma_last_operation_push(operations, operation, changed[i].key());
        if i < at {
            assert(changed[i] == index[i]);
            lemma_lex_lt_asymmetric(index[i].key(), index[at].key());
        } else if i > at {
            assert(changed[i] == index[i]);
            lemma_lex_lt_asymmetric(index[at].key(), index[i].key());
        }
    }
    assert forall|key: Seq<u8>| #[trigger] last_operation(more, key) is Some implies exists|i: int|
        has_key_at(changed, i, key) by {
        lemma_last_operation_push(operations, operation, key);
        if operation.key() == key {
            assert(has_key_at(changed, at, key));
        } else {
            let i = choose|i: int| has_key_at(index, i, key);
            assert(has_key_at(changed, i, key));
        }
    }
    assert forall|i: int, j: int| 0 <= i < j < changed.len() implies lex_lt(
        (#[trigger] changed[i]).key(),
        (#[trigger] changed[j]).key(),
    ) by {
        assert(changed[i].key() == index[i].key());
        assert(changed[j].key() == index[j].key());
    }
}

/// A key that stands strictly between the entries before `at` and those
/// from `at` on is not mentioned at all.
pub proof fn lemma_index_miss(
    index: Seq<OperationView>,
    operations: Seq<OperationView>,
    key: Seq<u8>,
    at: int,
)
    requires
        is_index_of(index, operations),
        forall|i: int| 0 <= i < at ==> lex_lt((#[trigger] index[i]).key(), key),
        forall|i: int| at <= i < index.len() ==> lex_lt(key, (#[trigger] index[i]).key()),
    ensures
        last_operation(operations, key) is None,
{
    if last_operation(operations, key) is Some {
        let i = choose|i: int| has_key_at(index, i, key);
        if i < at {
            lemma_lex_lt_asymmetric(index[i].key(), key);
        } else {
            lemma_lex_lt_asymmetric(key, index[i].key());
        }
    }
}

/// Searches the index for `key`. `Ok` gives the place of its entry; `Err`
/// gives the place where an entry for it would have to be put.
pub fn find(index: &Vec<OperationSpan>, memory: &[u8], key: &[u8]) -> (place: Result<usize, usize>)
    requires
        spans_fit(index@, memory@.len()),
        sorted_by_key(span_views(index@, memory@)),
    ensures
        match place {
            Ok(at) => has_key_at(span_views(index@, memory@), at as int, key@),
            Err(at) => {
                &&& at <= index@.len()
                &&& forall|i: int|
                    0 <= i < at ==> lex_lt((#[trigger] span_views(index@, memory@)[i]).key(), key@)
                &&& forall|i: int|
                    at <= i < index@.len() ==> lex_lt(
                        key@,
                        (#[trigger] span_views(index@, memory@)[i]).key(),
                    )
            },
        },
{
    let ghost views = span_views(index@, memory@);
    let mut low: usize = 0;
    let mut high: usize = index.len();
    while low < high
        invariant
            low <= high <= index@.len(),
            views == span_views(index@, memory@),
            spans_fit(index@, memory@.len()),
            sorted_by_key(views),
            forall|i: int| 0 <= i < low ==> lex_lt((#[trigger] views[i]).key(), key@),
            forall|i: int| high <= i < index@.len() ==> lex_lt(key@, (#[trigger] views[i]).key()),
        decreases high - low,
    {
        let middle: usize = low + (high - low) / 2;
        let entry = index[middle].key.as_slice(memory);
        assert(entry@ == views[middle as int].key());
        match compare(entry, key) {
            Order::Less => {
                assert forall|i: int| 0 <= i < middle + 1 implies lex_lt(
                    (#[trigger] views[i]).key(),
                    key@,
                ) by {
                    if i < middle {
                        lemma_lex_lt_transitive(views[i].key(), views[middle as int].key(), key@);
                    }
                }
                low = middle + 1;
            },
            Order::Greater => {
                assert forall|i: int| middle <= i < index@.len() implies lex_lt(
                    key@,
                    (#[trigger] views[i]).key(),
                ) by {
                    if middle < i {
                        lemma_lex_lt_transitive(key@, views[middle as int].key(), views[i].key());
                    }
                }
                high = middle;
            },
            Order::Equal => {
                return Ok(middle);
            },
        }
    }
    Err(low)
}

/// Builds the index of the serialized transaction `memory` in one scan:
/// each operation in turn is put at its key's place, in place of an earlier
/// one on the same key. `None` where `memory` is no serialized transaction.
pub fn cache_memory(memory: &[u8]) -> (cache: Option<Vec<OperationSpan>>)
    ensures
        match decode_operations(memory@) {
            Some(operations) => {
                &&& cache matches Some(index)
                &&& spans_fit(index@, memory@.len())
                &&& is_index_of(span_views(index@, memory@), operations)
            },
            None => cache is None,
        },
{
    let mut index: Vec<OperationSpan> = Vec::new();
    let mut position: usize = 0;
    let ghost mut done: Seq<OperationView> = Seq::empty();
    assert(memory@.skip(0) =~= memory@);
    assert(decode_operations(memory@) is Some ==> Seq::<OperationView>::empty()
        + decode_operations(memory@).unwrap() =~= decode_operations(memory@).unwrap());
    while position < memory.len()
        invariant
            position <= memory@.len(),
            spans_fit(index@, memory@.len()),
            is_index_of(span_views(index@, memory@), done),
            decode_operations(memory@) == match decode_operations(memory@.skip(position as int)) {
                Some(rest) => Some(done + rest),
                None => None,
            },
        decreases memory@.len() - position,
    {
        let ghost rest = memory@.skip(position as int);
        match read_operation(memory, position) {
            None => {
                return None;
            },
            Some((span, next)) => {
                let ghost operation = span.operation_in(memory@);
                let ghost views = span_views(index@, memory@);
                assert(rest.skip(next - position) =~= memory@.skip(next as int));
                match find(&index, memory, span.key.as_slice(memory)) {
                    Ok(at) => {
                        index.set(at, span);
                        proof {
                            lemma_index_replace(views, done, operation, at as int);
                            assert(span_views(index@, memory@) =~= views.update(
                                at as int,
                                operation,
                            ));
                        }
                    },
                    Err(at) => {
                        index.insert(at, span);
                        proof {
                            lemma_index_insert(views, done, operation, at as int);
                            assert(span_views(index@, memory@) =~= views.insert(
                                at as int,
                                operation,
                            ));
                        }
                    },
                }
                proof {
                    if decode_operations(memory@.skip(next as int)) is Some {
                        let tail = decode_operations(memory@.skip(next as int)).unwrap();
                        assert(done + (seq![operation] + tail) =~= done.push(operation) + tail);
                    }
                    done = done.push(operation);
                }
                position = next;
            },
        }
    }
    proof {
        assert(memory@.skip(position as int) =~= Seq::<u8>::empty());
        assert(done + Seq::<OperationView>::empty() =~= done);
    }
    Some(index)
}

/// A key that no operation mentions has no last operation.
pub proof fn lemma_last_operation_absent(operations: Seq<OperationView>, key: Seq<u8>)
    requires
        forall|i: int| 0 <= i < operations.len() ==> (#[trigger] operations[i]).key() != key,
    ensures
        last_operation(operations, key) is None,
    decreases operations.len(),
{
    if operations.len() > 0 {
        assert(operations.last() == operations[operations.len() - 1]);
        assert forall|i: int| 0 <= i < operations.drop_last().len() implies (
        #[trigger] operations.drop_last()[i]).key() != key by {
            assert(operations.drop_last()[i] == operations[i]);
        }
        lemma_last_operation_absent(operations.drop_last(), key);
    }
}

/// The last operation on a key is the one that mentions it and is followed
/// by no other that does.
pub proof fn lemma_last_operation_found(operations: Seq<OperationView>, key: Seq<u8>, at: int)
    requires
        0 <= at < operations.len(),
        operations[at].key() == key,
        forall|i: int| at < i < operations.len() ==> (#[trigger] operations[i]).key() != key,
    ensures
        last_operation(operations, key) == Some(operations[at]),
    decreases operations.len(),
{
    assert(operations.last() == operations[operations.len() - 1]);
    if at < operations.len() - 1 {
        let front = operations.drop_last();
        assert(front[at] == operations[at]);
        assert forall|i: int| at < i < front.len() implies (#[trigger] front[i]).key() != key by {
            assert(front[i] == operations[i]);
        }
        lemma_last_operation_found(front, key, at);
    }
}

/// Two canonical forms of the same operations hold the same key at each
/// place that both have.
proof fn lemma_index_keys_agree(
    first: Seq<OperationView>,
    second: Seq<OperationView>,
    operations: Seq<OperationView>,
    at: int,
)
    requires
        is_index_of(first, operations),
        is_index_of(second, operations),
        0 <= at < first.len(),
        at < second.len(),
    ensures
        first[at].key() == second[at].key(),
    decreases at,
{
    let key = first[at].key();
    let other = second[at].key();
    assert(last_operation(operations, key) is Some);
    assert(last_operation(operations, other) is Some);
    let there = choose|i: int| has_key_at(second, i, key);
    let here = choose|i: int| has_key_at(first, i, other);
    if there < at {
        lemma_index_keys_agree(first, second, operations, there);
        lemma_lex_lt_asymmetric(first[there].key(), first[at].key());
    } else if here < at {
        lemma_index_keys_agree(first, second, operations, here);
        lemma_lex_lt_asymmetric(second[here].key(), second[at].key());
    } else if there > at {
        lemma_lex_lt_asymmetric(second[at].key(), second[there].key());
        if here > at {
            lemma_lex_lt_asymmetric(first[at].key(), first[here].key());
        }
    }
}

/// The canonical form of given operations is unique: whoever builds it, and
/// however often, gets the same sequence.
pub proof fn lemma_index_unique(
    first: Seq<OperationView>,
    second: Seq<OperationView>,
    operations: Seq<OperationView>,
)
    requires
        is_index_of(first, operations),
        is_index_of(second, operations),
    ensures
        first == second,
{
    lemma_index_no_longer(first, second, operations);
    lemma_index_no_longer(second, first, operations);
    assert forall|i: int| 0 <= i < first.len() implies first[i] == second[i] by {
        lemma_index_keys_agree(first, second, operations, i);
        assert(last_operation(operations, first[i].key()) == Some(first[i]));
        assert(last_operation(operations, second[i].key()) == Some(second[i]));
    }
    assert(first =~= second);
}

/// Of two canonical forms of the same operations the second is no longer
/// than the first.
proof fn lemma_index_no_longer(
    first: Seq<OperationView>,
    second: Seq<OperationView>,
    operations: Seq<OperationView>,
)
    requires
        is_index_of(first, operations),
        is_index_of(second, operations),
    ensures
        second.len() <= first.len(),
{
    if first.len() < second.len() {
        let extra = second[first.len() as int];
        assert(last_operation(operations, extra.key()) is Some);
        let here = choose|i: int| has_key_at(first, i, extra.key());
        lemma_index_keys_agree(first, second, operations, here);
        lemma_lex_lt_asymmetric(second[here].key(), extra.key());
    }
}

} // verus!
