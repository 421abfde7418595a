//! The order of byte strings: byte by byte, a prefix before what it begins.

use vstd::prelude::*;

verus! {

/// Whether `a` comes before `b`.
pub open spec fn bytes_lt(a: Seq<u8>, b: Seq<u8>) -> bool
    decreases a.len(),
{
    if b.len() == 0 {
        false
    } else if a.len() == 0 {
        true
    } else if a[0] != b[0] {
        a[0] < b[0]
    } else {
        bytes_lt(a.skip(1), b.skip(1))
    }
}

/// Whether `a` is `b` or comes before it.
pub open spec fn bytes_le(a: Seq<u8>, b: Seq<u8>) -> bool {
    a == b || bytes_lt(a, b)
}

/// Whether `s` begins with `prefix`.
pub open spec fn starts_with(s: Seq<u8>, prefix: Seq<u8>) -> bool {
    prefix.len() <= s.len() && s.take(prefix.len() as int) == prefix
}

pub proof fn lemma_lt_irreflexive(a: Seq<u8>)
    ensures
        !bytes_lt(a, a),
    decreases a.len(),
{
    if a.len() > 0 {
        lemma_lt_irreflexive(a.skip(1));
    }
}

pub proof fn lemma_lt_asymmetric(a: Seq<u8>, b: Seq<u8>)
    requires
        bytes_lt(a, b),
    ensures
        !bytes_lt(b, a),
        a != b,
    decreases a.len(),
{
    lemma_lt_irreflexive(a);
    if a.len() > 0 && a[0] == b[0] {
        lemma_lt_asymmetric(a.skip(1), b.skip(1));
    }
}

pub proof fn lemma_lt_transitive(a: Seq<u8>, b: Seq<u8>, c: Seq<u8>)
    requires
        bytes_lt(a, b),
        bytes_lt(b, c),
    ensures
        bytes_lt(a, c),
    decreases a.len(),
{
    if a.len() > 0 && a[0] == b[0] && b[0] == c[0] {
        lemma_lt_transitive(a.skip(1), b.skip(1), c.skip(1));
    }
}

pub proof fn lemma_lt_total(a: Seq<u8>, b: Seq<u8>)
    ensures
        bytes_lt(a, b) || a == b || bytes_lt(b, a),
    decreases a.len(),
{
    if a.len() == 0 || b.len() == 0 {
        if a.len() == b.len() {
            assert(a =~= b);
        }
    } else if a[0] == b[0] {
        lemma_lt_total(a.skip(1), b.skip(1));
        if a.skip(1) == b.skip(1) {
            assert(a =~= seq![a[0]] + a.skip(1));
            assert(b =~= seq![b[0]] + b.skip(1));
        }
    }
}

/// `a <= b` is not `b < a`.
pub proof fn lemma_le_is_not_gt(a: Seq<u8>, b: Seq<u8>)
    ensures
        bytes_le(a, b) == !bytes_lt(b, a),
{
    lemma_lt_total(a, b);
    if bytes_lt(b, a) {
        lemma_lt_asymmetric(b, a);
    }
    if a == b {
        lemma_lt_irreflexive(a);
    }
}

pub proof fn lemma_lt_le_transitive(a: Seq<u8>, b: Seq<u8>, c: Seq<u8>)
    requires
        bytes_lt(a, b) && bytes_le(b, c) || bytes_le(a, b) && bytes_lt(b, c),
    ensures
        bytes_lt(a, c),
{
    if bytes_lt(a, b) && bytes_lt(b, c) {
        lemma_lt_transitive(a, b, c);
    }
}

pub proof fn lemma_le_transitive(a: Seq<u8>, b: Seq<u8>, c: Seq<u8>)
    requires
        bytes_le(a, b),
        bytes_le(b, c),
    ensures
        bytes_le(a, c),
{
    if a != b && b != c {
        lemma_lt_transitive(a, b, c);
    }
}

/// What two byte strings have in common at the front does not decide.
pub proof fn lemma_lt_common_front(front: Seq<u8>, a: Seq<u8>, b: Seq<u8>)
    ensures
        bytes_lt(front + a, front + b) == bytes_lt(a, b),
    decreases front.len(),
{
    if front.len() == 0 {
        assert(front + a =~= a);
        assert(front + b =~= b);
    } else {
        assert((front + a).skip(1) =~= front.skip(1) + a);
        assert((front + b).skip(1) =~= front.skip(1) + b);
        lemma_lt_common_front(front.skip(1), a, b);
    }
}

/// A byte string comes before what it begins.
pub proof fn lemma_prefix_lt(front: Seq<u8>, more: Seq<u8>)
    ensures
        bytes_le(front, front + more),
        more.len() > 0 ==> bytes_lt(front, front + more),
{
    lemma_lt_common_front(front, seq![], more);
    assert(front + Seq::<u8>::empty() =~= front);
    if more.len() == 0 {
        assert(front + more =~= front);
    }
}

/// A strict order that is decided before either string ends is not changed
/// by what is added to them.
pub proof fn lemma_lt_extends(a: Seq<u8>, b: Seq<u8>, x: Seq<u8>, y: Seq<u8>)
    requires
        bytes_lt(a, b),
        !starts_with(b, a),
    ensures
        bytes_lt(a + x, b + y),
    decreases a.len(),
{
    if a.len() == 0 {
        assert(b.take(0) =~= a);
    } else if a[0] == b[0] {
        assert((a + x).skip(1) =~= a.skip(1) + x);
        assert((b + y).skip(1) =~= b.skip(1) + y);
        if starts_with(b.skip(1), a.skip(1)) {
            assert(b.take(a.len() as int) =~= seq![b[0]] + b.skip(1).take(a.len() - 1));
            assert(a =~= seq![a[0]] + a.skip(1));
        }
        lemma_lt_extends(a.skip(1), b.skip(1), x, y);
    }
}

/// Whether `a` comes before `b`.
pub fn bytes_less(a: &[u8], b: &[u8]) -> (r: bool)
    ensures
        r == bytes_lt(a@, b@),
{
    let n: usize = a.len();
    let m: usize = b.len();
    let mut i: usize = 0;
    assert(a@.skip(0) =~= a@);
    assert(b@.skip(0) =~= b@);
    while i < n && i < m
        invariant
            n == a@.len(),
            m == b@.len(),
            i <= n,
            i <= m,
            bytes_lt(a@, b@) == bytes_lt(a@.skip(i as int), b@.skip(i as int)),
        decreases n - i,
    {
        if a[i] != b[i] {
            return a[i] < b[i];
        }
        assert(a@.skip(i as int).skip(1) =~= a@.skip(i + 1));
        assert(b@.skip(i as int).skip(1) =~= b@.skip(i + 1));
        i = i + 1;
    }
    i < m
}

} // verus!
