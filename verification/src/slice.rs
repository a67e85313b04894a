//! Byte strings as keys: their lexicographic order, and views into a buffer
//! by offset and length.

use vstd::prelude::*;
use vstd::slice::slice_subrange;

verus! {

/// `a` and `b` have the same first `n` bytes.
pub open spec fn agree_upto(a: Seq<u8>, b: Seq<u8>, n: int) -> bool {
    &&& 0 <= n <= a.len()
    &&& n <= b.len()
    &&& forall|j: int| 0 <= j < n ==> a[j] == b[j]
}

/// `a` and `b` first differ at position `n`, and there `a` is the smaller:
/// it has ended, or its byte is less.
pub open spec fn less_at(a: Seq<u8>, b: Seq<u8>, n: int) -> bool {
    &&& agree_upto(a, b, n)
    &&& n < b.len()
    &&& (n == a.len() || a[n] < b[n])
}

/// The lexicographic order of byte strings, strict.
pub open spec fn lex_lt(a: Seq<u8>, b: Seq<u8>) -> bool {
    exists|n: int| #[trigger] less_at(a, b, n)
}

/// A strict order never holds both ways, nor between equal strings.
pub proof fn lemma_lex_lt_asymmetric(a: Seq<u8>, b: Seq<u8>)
    requires
        lex_lt(a, b),
    ensures
        !lex_lt(b, a),
        a != b,
{
    let n = choose|n: int| #[trigger] less_at(a, b, n);
    if lex_lt(b, a) {
        let m = choose|m: int| #[trigger] less_at(b, a, m);
        if m < n {
            assert(a[m] == b[m]);
        } else if n < m {
            assert(b[n] == a[n]);
        }
        assert(false);
    }
}

/// The order is transitive.
pub proof fn lemma_lex_lt_transitive(a: Seq<u8>, b: Seq<u8>, c: Seq<u8>)
    requires
        lex_lt(a, b),
        lex_lt(b, c),
    ensures
        lex_lt(a, c),
{
    let n = choose|n: int| #[trigger] less_at(a, b, n);
    let m = choose|m: int| #[trigger] less_at(b, c, m);
    let k = if n <= m { n } else { m };
    assert(agree_upto(a, c, k)) by {
        assert forall|j: int| 0 <= j < k implies a[j] == c[j] by {
            assert(a[j] == b[j]);
            assert(b[j] == c[j]);
        }
    }
    if n < m {
        assert(b[n] == c[n]);
    }
    assert(less_at(a, c, k));
}

/// `a` and `b` agree from the start up to `from`; then either they are equal
/// or one of them is the smaller.
proof fn lemma_lex_total_from(a: Seq<u8>, b: Seq<u8>, from: int)
    requires
        agree_upto(a, b, from),
    ensures
        lex_lt(a, b) || a == b || lex_lt(b, a),
    decreases a.len() - from,
{
    if from == a.len() {
        if from == b.len() {
            assert(a =~= b);
        } else {
            assert(less_at(a, b, from));
        }
    } else if from == b.len() {
        assert(agree_upto(b, a, from));
        assert(less_at(b, a, from));
    } else if a[from] < b[from] {
        assert(less_at(a, b, from));
    } else if b[from] < a[from] {
        assert(agree_upto(b, a, from));
        assert(less_at(b, a, from));
    } else {
        lemma_lex_total_from(a, b, from + 1);
    }
}

/// The order is total: two byte strings are equal, or one is the smaller.
pub proof fn lemma_lex_lt_total(a: Seq<u8>, b: Seq<u8>)
    ensures
        lex_lt(a, b) || a == b || lex_lt(b, a),
{
    lemma_lex_total_from(a, b, 0);
}

/// How one byte string stands to another in the lexicographic order.
#[derive(Clone, Copy, Debug, PartialEq, Eq)]
pub enum Order {
    Less,
    Equal,
    Greater,
}

/// Compares two byte strings lexicographically.
pub fn compare(a: &[u8], b: &[u8]) -> (order: Order)
    ensures
        order is Less <==> lex_lt(a@, b@),
        order is Equal <==> a@ == b@,
        order is Greater <==> lex_lt(b@, a@),
{
    let mut i: usize = 0;
    while i < a.len() && i < b.len()
        invariant
            agree_upto(a@, b@, i as int),
        decreases a.len() - i,
    {
        if a[i] < b[i] {
            proof {
                assert(less_at(a@, b@, i as int));
                lemma_lex_lt_asymmetric(a@, b@);
            }
            return Order::Less;
        }
        if b[i] < a[i] {
            proof {
                assert(agree_upto(b@, a@, i as int));
                assert(less_at(b@, a@, i as int));
                lemma_lex_lt_asymmetric(b@, a@);
            }
            return Order::Greater;
        }
        i += 1;
    }
    if i < b.len() {
        proof {
            assert(less_at(a@, b@, i as int));
            lemma_lex_lt_asymmetric(a@, b@);
        }
        Order::Less
    } else if i < a.len() {
        proof {
            assert(agree_upto(b@, a@, i as int));
            assert(less_at(b@, a@, i as int));
            lemma_lex_lt_asymmetric(b@, a@);
        }
        Order::Greater
    } else {
        proof {
            assert(a@ =~= b@);
            if lex_lt(a@, b@) {
                lemma_lex_lt_asymmetric(a@, b@);
            }
            if lex_lt(b@, a@) {
                lemma_lex_lt_asymmetric(b@, a@);
            }
        }
        Order::Equal
    }
}

/// A view onto part of a byte buffer: where it starts and how long it is.
/// It owns no bytes and names no buffer; it is read through the buffer it
/// was made for.
#[derive(Clone, Copy, Debug)]
pub struct JournalSlice {
    start: usize,
    len: usize,
}

impl JournalSlice {
    /// The offset of the first byte.
    pub closed spec fn start(&self) -> nat {
        self.start as nat
    }

    /// The number of bytes.
    pub closed spec fn len(&self) -> nat {
        self.len as nat
    }

    /// The view lies within a buffer of `size` bytes.
    pub open spec fn fits(&self, size: nat) -> bool {
        self.start() + self.len() <= size
    }

    /// The bytes that the view shows of `memory`.
    pub open spec fn bytes_in(&self, memory: Seq<u8>) -> Seq<u8> {
        memory.subrange(self.start() as int, (self.start() + self.len()) as int)
    }

    /// A view of `len` bytes that begins at offset `start`.
    pub fn new(start: usize, len: usize) -> (slice: JournalSlice)
        ensures
            slice.start() == start,
            slice.len() == len,
    {
        JournalSlice { start, len }
    }

    /// The viewed bytes of `memory`, borrowed from it.
    pub fn as_slice<'a>(&self, memory: &'a [u8]) -> (bytes: &'a [u8])
        requires
            self.fits(memory@.len()),
        ensures
            bytes@ == self.bytes_in(memory@),
    {
        let size: usize = memory.len();
        assert(self.start + self.len <= size);
        slice_subrange(memory, self.start, self.start + self.len)
    }
}

} // verus!
