//! Integers as bytes, least and most significant byte first.

use vstd::prelude::*;

verus! {

/// 256 to the `k`: how many values `k` bytes can hold.
pub open spec fn pow256(k: nat) -> nat
    decreases k,
{
    if k == 0 {
        1
    } else {
        256 * pow256((k - 1) as nat)
    }
}

/// The `k` low bytes of `n`, least significant first.
pub open spec fn le_bytes(n: nat, k: nat) -> Seq<u8>
    decreases k,
{
    if k == 0 {
        seq![]
    } else {
        seq![(n % 256) as u8] + le_bytes(n / 256, (k - 1) as nat)
    }
}

/// The number that `s` holds, least significant byte first.
pub open spec fn from_le(s: Seq<u8>) -> nat
    decreases s.len(),
{
    if s.len() == 0 {
        0
    } else {
        s[0] as nat + 256 * from_le(s.skip(1))
    }
}

/// The `k` low bytes of `n`, most significant first.
pub open spec fn be_bytes(n: nat, k: nat) -> Seq<u8>
    decreases k,
{
    if k == 0 {
        seq![]
    } else {
        be_bytes(n / 256, (k - 1) as nat).push((n % 256) as u8)
    }
}

/// The number that `s` holds, most significant byte first.
pub open spec fn from_be(s: Seq<u8>) -> nat
    decreases s.len(),
{
    if s.len() == 0 {
        0
    } else {
        256 * from_be(s.drop_last()) + s.last() as nat
    }
}

pub proof fn lemma_pow256_values()
    ensures
        pow256(0) == 1,
        pow256(1) == 0x100,
        pow256(2) == 0x1_0000,
        pow256(4) == 0x1_0000_0000,
        pow256(8) == 0x1_0000_0000_0000_0000,
{
    reveal_with_fuel(pow256, 9);
}

pub proof fn lemma_pow256_positive(k: nat)
    ensures
        pow256(k) >= 1,
    decreases k,
{
    if k > 0 {
        lemma_pow256_positive((k - 1) as nat);
    }
}

pub proof fn lemma_le_len(n: nat, k: nat)
    ensures
        le_bytes(n, k).len() == k,
    decreases k,
{
    if k > 0 {
        lemma_le_len(n / 256, (k - 1) as nat);
    }
}

pub proof fn lemma_be_len(n: nat, k: nat)
    ensures
        be_bytes(n, k).len() == k,
    decreases k,
{
    if k > 0 {
        lemma_be_len(n / 256, (k - 1) as nat);
    }
}

pub proof fn lemma_from_le_bound(s: Seq<u8>)
    ensures
        from_le(s) < pow256(s.len()),
    decreases s.len(),
{
    if s.len() > 0 {
        lemma_from_le_bound(s.skip(1));
    }
}

pub proof fn lemma_from_be_bound(s: Seq<u8>)
    ensures
        from_be(s) < pow256(s.len()),
    decreases s.len(),
{
    if s.len() > 0 {
        lemma_from_be_bound(s.drop_last());
    }
}

/// What was written least significant byte first reads back as it was.
pub proof fn lemma_le_roundtrip(n: nat, k: nat)
    requires
        n < pow256(k),
    ensures
        from_le(le_bytes(n, k)) == n,
        le_bytes(n, k).len() == k,
    decreases k,
{
    if k > 0 {
        let rest = le_bytes(n / 256, (k - 1) as nat);
        assert(n / 256 < pow256((k - 1) as nat));
        lemma_le_roundtrip(n / 256, (k - 1) as nat);
        assert(le_bytes(n, k).skip(1) =~= rest);
    }
}

/// Bytes read least significant first are the bytes of what was read.
pub proof fn lemma_le_of_from_le(s: Seq<u8>)
    ensures
        le_bytes(from_le(s), s.len()) == s,
    decreases s.len(),
{
    if s.len() > 0 {
        let m = from_le(s.skip(1));
        lemma_le_of_from_le(s.skip(1));
        assert((s[0] as nat + 256 * m) % 256 == s[0]);
        assert((s[0] as nat + 256 * m) / 256 == m);
        assert(seq![s[0]] + s.skip(1) =~= s);
    }
}

/// What was written most significant byte first reads back as it was.
pub proof fn lemma_be_roundtrip(n: nat, k: nat)
    requires
        n < pow256(k),
    ensures
        from_be(be_bytes(n, k)) == n,
        be_bytes(n, k).len() == k,
    decreases k,
{
    if k > 0 {
        assert(n / 256 < pow256((k - 1) as nat));
        lemma_be_roundtrip(n / 256, (k - 1) as nat);
        assert(be_bytes(n, k).drop_last() =~= be_bytes(n / 256, (k - 1) as nat));
    }
}

/// Bytes read most significant first are the bytes of what was read.
pub proof fn lemma_be_of_from_be(s: Seq<u8>)
    ensures
        be_bytes(from_be(s), s.len()) == s,
    decreases s.len(),
{
    if s.len() > 0 {
        let m = from_be(s.drop_last());
        let b = s.last() as nat;
        lemma_be_of_from_be(s.drop_last());
        assert((256 * m + b) % 256 == b);
        assert((256 * m + b) / 256 == m);
        assert(s.drop_last().push(s.last()) =~= s);
    }
}

/// Appends the `k` low bytes of `n`, least significant first.
pub fn put_le(out: &mut Vec<u8>, n: u64, k: usize)
    requires
        k <= 8,
    ensures
        final(out)@ == old(out)@ + le_bytes(n as nat, k as nat),
{
    let mut rest: u64 = n;
    let ghost start = out@;
    proof {
        lemma_le_len(n as nat, k as nat);
    }
    for i in 0..k
        invariant
            out@ + le_bytes(rest as nat, (k - i) as nat) == start + le_bytes(n as nat, k as nat),
    {
        let ghost before = out@;
        out.push((rest % 256) as u8);
        assert(before + le_bytes(rest as nat, (k - i) as nat) =~= out@ + le_bytes(
            (rest / 256) as nat,
            (k - i - 1) as nat,
        ));
        rest = rest / 256;
    }
    assert(out@ + le_bytes(rest as nat, 0) =~= out@);
}

/// The number in `bytes`, least significant byte first.
pub fn get_le(bytes: &[u8]) -> (n: u64)
    requires
        bytes@.len() <= 8,
    ensures
        n == from_le(bytes@),
{
    proof {
        lemma_pow256_values();
        lemma_from_le_bound(bytes@);
    }
    let mut n: u64 = 0;
    let mut i: usize = bytes.len();
    while i > 0
        invariant
            i <= bytes@.len() <= 8,
            n == from_le(bytes@.skip(i as int)),
        decreases i,
    {
        i = i - 1;
        proof {
            let s = bytes@.skip(i as int);
            assert(s.skip(1) =~= bytes@.skip(i + 1));
            lemma_from_le_bound(s);
            lemma_pow256_le(s.len(), 8);
            lemma_pow256_values();
        }
        n = bytes[i] as u64 + 256 * n;
    }
    assert(bytes@.skip(0) =~= bytes@);
    n
}

pub proof fn lemma_pow256_le(a: nat, b: nat)
    requires
        a <= b,
    ensures
        pow256(a) <= pow256(b),
    decreases b,
{
    if a < b {
        lemma_pow256_le(a, (b - 1) as nat);
        lemma_pow256_positive((b - 1) as nat);
    }
}

/// Appends the `k` low bytes of `n`, most significant first.
pub fn put_be(out: &mut Vec<u8>, n: u64, k: usize)
    requires
        k <= 8,
    ensures
        final(out)@ == old(out)@ + be_bytes(n as nat, k as nat),
    decreases k,
{
    if k > 0 {
        put_be(out, n / 256, k - 1);
        let ghost mid = out@;
        out.push((n % 256) as u8);
        assert(out@ =~= old(out)@ + be_bytes(n as nat, k as nat));
    } else {
        assert(out@ =~= old(out)@ + be_bytes(n as nat, 0));
    }
}

/// The number in `bytes`, most significant byte first.
pub fn get_be(bytes: &[u8]) -> (n: u64)
    requires
        bytes@.len() <= 8,
    ensures
        n == from_be(bytes@),
{
    let len: usize = bytes.len();
    let mut n: u64 = 0;
    assert(bytes@.take(0) =~= seq![]);
    for i in 0..len
        invariant
            len == bytes@.len() <= 8,
            n == from_be(bytes@.take(i as int)),
    {
        proof {
            let s = bytes@.take(i + 1);
            assert(s.drop_last() =~= bytes@.take(i as int));
            lemma_from_be_bound(s);
            lemma_pow256_le(s.len(), 8);
            lemma_pow256_values();
        }
        n = 256 * n + bytes[i] as u64;
    }
    assert(bytes@.take(len as int) =~= bytes@);
    n
}

/// Whether two byte strings are equal.
pub fn bytes_equal(a: &[u8], b: &[u8]) -> (r: bool)
    ensures
        r == (a@ == b@),
{
    let n: usize = a.len();
    if n != b.len() {
        return false;
    }
    for i in 0..n
        invariant
            n == a@.len() == b@.len(),
            a@.take(i as int) == b@.take(i as int),
    {
        if a[i] != b[i] {
            assert(a@[i as int] != b@[i as int]);
            return false;
        }
        assert(a@.take(i + 1) =~= a@.take(i as int).push(a@[i as int]));
        assert(b@.take(i + 1) =~= b@.take(i as int).push(b@[i as int]));
    }
    assert(a@.take(n as int) =~= a@);
    assert(b@.take(n as int) =~= b@);
    true
}

} // verus!
