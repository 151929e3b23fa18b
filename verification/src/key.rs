//! Keys of ordered maps: integers, texts and pairs of keys.

use vstd::prelude::*;
use vstd::utf8::encode_utf8;

verus! {

/// Where one key stands relative to another.
#[derive(Debug, Clone, Copy, PartialEq, Eq, Structural)]
pub enum Order {
    Before,
    Same,
    After,
}

/// A key with a strict total order on its view.
pub trait Key: View + Sized {
    spec fn before(a: Self::V, b: Self::V) -> bool;

    proof fn before_is_strict(a: Self::V)
        ensures
            !Self::before(a, a),
    ;

    proof fn before_is_transitive(a: Self::V, b: Self::V, c: Self::V)
        requires
            Self::before(a, b),
            Self::before(b, c),
        ensures
            Self::before(a, c),
    ;

    proof fn before_is_total(a: Self::V, b: Self::V)
        ensures
            a == b || Self::before(a, b) || Self::before(b, a),
    ;

    fn order(&self, other: &Self) -> (r: Order)
        ensures
            r == Order::Before <==> Self::before(self@, other@),
            r == Order::Same <==> self@ == other@,
            r == Order::After <==> Self::before(other@, self@),
    ;

    fn duplicate(&self) -> (r: Self)
        ensures
            r@ == self@,
    ;
}

impl Key for u64 {
    open spec fn before(a: u64, b: u64) -> bool {
        a < b
    }

    proof fn before_is_strict(a: u64) {
    }

    proof fn before_is_transitive(a: u64, b: u64, c: u64) {
    }

    proof fn before_is_total(a: u64, b: u64) {
    }

    fn order(&self, other: &u64) -> (r: Order) {
        if *self < *other {
            Order::Before
        } else if *self == *other {
            Order::Same
        } else {
            Order::After
        }
    }

    fn duplicate(&self) -> (r: u64) {
        *self
    }
}

/// Lexicographic order on byte sequences.
pub open spec fn bytes_before(a: Seq<u8>, b: Seq<u8>) -> bool
    decreases b.len(),
{
    if b.len() == 0 {
        false
    } else if a.len() == 0 {
        true
    } else {
        a[0] < b[0] || (a[0] == b[0] && bytes_before(a.drop_first(), b.drop_first()))
    }
}

proof fn lemma_bytes_before_strict(a: Seq<u8>)
    ensures
        !bytes_before(a, a),
    decreases a.len(),
{
    if a.len() > 0 {
        lemma_bytes_before_strict(a.drop_first());
    }
}

proof fn lemma_bytes_before_transitive(a: Seq<u8>, b: Seq<u8>, c: Seq<u8>)
    requires
        bytes_before(a, b),
        bytes_before(b, c),
    ensures
        bytes_before(a, c),
    decreases c.len(),
{
    if a.len() > 0 && b[0] == c[0] && a[0] == b[0] {
        lemma_bytes_before_transitive(a.drop_first(), b.drop_first(), c.drop_first());
    }
}

proof fn lemma_bytes_before_total(a: Seq<u8>, b: Seq<u8>)
    ensures
        a == b || bytes_before(a, b) || bytes_before(b, a),
    decreases a.len(),
{
    if a.len() == 0 || b.len() == 0 {
        assert(a.len() == 0 && b.len() == 0 ==> a =~= b);
    } else if a[0] == b[0] {
        lemma_bytes_before_total(a.drop_first(), b.drop_first());
        if a.drop_first() == b.drop_first() {
            assert forall|i: int| 0 <= i < a.len() implies a[i] == b[i] by {
                if i > 0 {
                    assert(a[i] == a.drop_first()[i - 1]);
                    assert(b[i] == b.drop_first()[i - 1]);
                }
            }
            assert(a.len() == a.drop_first().len() + 1);
            assert(a =~= b);
        }
    }
}

/// The order of two byte slices.
fn bytes_order(a: &[u8], b: &[u8]) -> (r: Order)
    ensures
        r == Order::Before <==> bytes_before(a@, b@),
        r == Order::Same <==> a@ == b@,
        r == Order::After <==> bytes_before(b@, a@),
{
    let mut i: usize = 0;
    proof {
        assert(a@.skip(0) =~= a@);
        assert(b@.skip(0) =~= b@);
    }
    while i < a.len() && i < b.len()
        invariant
            i <= a@.len(),
            i <= b@.len(),
            bytes_before(a@, b@) == bytes_before(a@.skip(i as int), b@.skip(i as int)),
            bytes_before(b@, a@) == bytes_before(b@.skip(i as int), a@.skip(i as int)),
            forall|j: int| 0 <= j < i ==> a@[j] == b@[j],
        decreases a@.len() - i,
    {
        proof {
            assert(a@.skip(i as int).drop_first() =~= a@.skip(i + 1));
            assert(b@.skip(i as int).drop_first() =~= b@.skip(i + 1));
        }
        if a[i] < b[i] {
            return Order::Before;
        }
        if b[i] < a[i] {
            return Order::After;
        }
        i = i + 1;
    }
    if i < b.len() {
        Order::Before
    } else if i < a.len() {
        Order::After
    } else {
        proof {
            assert(a@ =~= b@);
            lemma_bytes_before_strict(a@);
        }
        Order::Same
    }
}

/// Texts with the same UTF-8 bytes are the same text.
pub proof fn lemma_encoding_injective(a: Seq<char>, b: Seq<char>)
    requires
        encode_utf8(a) == encode_utf8(b),
    ensures
        a == b,
{
    vstd::utf8::encode_utf8_decode_utf8(a);
    vstd::utf8::encode_utf8_decode_utf8(b);
}

/// The order of texts: lexicographic in their UTF-8 bytes.
pub open spec fn text_before(a: Seq<char>, b: Seq<char>) -> bool {
    bytes_before(encode_utf8(a), encode_utf8(b))
}

/// A text comes before another exactly if, at the first place at which their UTF-8 bytes
/// differ, it has the smaller byte or has ended.
pub proof fn law_texts_are_ordered_by_their_bytes(a: Seq<char>, b: Seq<char>)
    ensures
        text_before(a, b) <==> exists|k: int| #[trigger]
            parts_at(encode_utf8(a), encode_utf8(b), k),
{
    lemma_parts(encode_utf8(a), encode_utf8(b));
}

/// Whether two rows of bytes are the same up to a place at which the first has a smaller
/// byte or has ended.
pub open spec fn parts_at(a: Seq<u8>, b: Seq<u8>, k: int) -> bool {
    &&& 0 <= k <= a.len()
    &&& k < b.len()
    &&& forall|i: int| 0 <= i < k ==> #[trigger] a[i] == b[i]
    &&& k == a.len() || a[k] < b[k]
}

proof fn lemma_parts(a: Seq<u8>, b: Seq<u8>)
    ensures
        bytes_before(a, b) <==> exists|k: int| #[trigger] parts_at(a, b, k),
    decreases b.len(),
{
    if b.len() > 0 {
        if a.len() == 0 {
            assert(parts_at(a, b, 0));
        } else {
            let x = a.drop_first();
            let y = b.drop_first();
            lemma_parts(x, y);
            if a[0] < b[0] {
                assert(parts_at(a, b, 0));
            } else if a[0] == b[0] {
                if bytes_before(x, y) {
                    let k = choose|k: int| #[trigger] parts_at(x, y, k);
                    assert forall|i: int| 0 <= i < k + 1 implies #[trigger] a[i] == b[i] by {
                        if i > 0 {
                            assert(x[i - 1] == y[i - 1]);
                        }
                    }
                    assert(parts_at(a, b, k + 1));
                }
                if exists|k: int| #[trigger] parts_at(a, b, k) {
                    let k = choose|k: int| #[trigger] parts_at(a, b, k);
                    assert forall|i: int| 0 <= i < k - 1 implies #[trigger] x[i] == y[i] by {
                        assert(a[i + 1] == b[i + 1]);
                    }
                    assert(parts_at(x, y, k - 1));
                }
            } else {
                assert forall|k: int| !#[trigger] parts_at(a, b, k) by {
                    if k > 0 && parts_at(a, b, k) {
                        assert(a[0] == b[0]);
                    }
                }
            }
        }
    }
}

impl Key for String {
    open spec fn before(a: Seq<char>, b: Seq<char>) -> bool {
        text_before(a, b)
    }

    proof fn before_is_strict(a: Seq<char>) {
        lemma_bytes_before_strict(encode_utf8(a));
    }

    proof fn before_is_transitive(a: Seq<char>, b: Seq<char>, c: Seq<char>) {
        lemma_bytes_before_transitive(encode_utf8(a), encode_utf8(b), encode_utf8(c));
    }

    proof fn before_is_total(a: Seq<char>, b: Seq<char>) {
        lemma_bytes_before_total(encode_utf8(a), encode_utf8(b));
        if encode_utf8(a) == encode_utf8(b) {
            lemma_encoding_injective(a, b);
        }
    }

    fn order(&self, other: &String) -> (r: Order) {
        let r = bytes_order(self.as_str().as_bytes(), other.as_str().as_bytes());
        proof {
            if r == Order::Same {
                lemma_encoding_injective(self@, other@);
            }
        }
        r
    }

    fn duplicate(&self) -> (r: String) {
        self.clone()
    }
}

impl<A: Key, B: Key> Key for (A, B) {
    open spec fn before(a: (A::V, B::V), b: (A::V, B::V)) -> bool {
        A::before(a.0, b.0) || (a.0 == b.0 && B::before(a.1, b.1))
    }

    proof fn before_is_strict(a: (A::V, B::V)) {
        A::before_is_strict(a.0);
        B::before_is_strict(a.1);
    }

    proof fn before_is_transitive(a: (A::V, B::V), b: (A::V, B::V), c: (A::V, B::V)) {
        if A::before(a.0, b.0) && A::before(b.0, c.0) {
            A::before_is_transitive(a.0, b.0, c.0);
        } else if a.0 == b.0 && b.0 == c.0 {
            B::before_is_transitive(a.1, b.1, c.1);
        }
    }

    proof fn before_is_total(a: (A::V, B::V), b: (A::V, B::V)) {
        A::before_is_total(a.0, b.0);
        B::before_is_total(a.1, b.1);
    }

    fn order(&self, other: &(A, B)) -> (r: Order) {
        proof {
            A::before_is_strict(self@.0);
            B::before_is_strict(self@.1);
            if A::before(self@.0, other@.0) && A::before(other@.0, self@.0) {
                A::before_is_transitive(self@.0, other@.0, self@.0);
            }
        }
        match self.0.order(&other.0) {
            Order::Before => Order::Before,
            Order::After => Order::After,
            Order::Same => self.1.order(&other.1),
        }
    }

    fn duplicate(&self) -> (r: (A, B)) {
        (self.0.duplicate(), self.1.duplicate())
    }
}

} // verus!
