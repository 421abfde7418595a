//! Cyclic redundancy checks. Pages carry CRC-32C (Castagnoli, the one
//! iSCSI, ext4 and RocksDB use), computed eight bytes per step from tables
//! ("slicing-by-8"). The write-ahead log carries the zlib CRC-32, bit by
//! bit. Both run least significant bit first.

use crate::bytes::{from_le, get_le, lemma_from_le_bound, lemma_pow256_values};
use vstd::prelude::*;
use vstd::slice::slice_subrange;

verus! {

/// The Castagnoli polynomial, bit-reversed.
pub const POLYNOMIAL: u32 = 0x82F6_3B78;

/// One bit's step of the check with polynomial `poly`.
pub open spec fn crc_bit(poly: u32, crc: u32) -> u32 {
    (crc >> 1u32) ^ (if crc & 1u32 == 1u32 {
        poly
    } else {
        0u32
    })
}

/// `n` bits' steps.
pub open spec fn crc_bits(poly: u32, crc: u32, n: nat) -> u32
    decreases n,
{
    if n == 0 {
        crc
    } else {
        crc_bits(poly, crc_bit(poly, crc), (n - 1) as nat)
    }
}

/// The state `crc` after the bytes `s`.
pub open spec fn crc_run(poly: u32, crc: u32, s: Seq<u8>) -> u32
    decreases s.len(),
{
    if s.len() == 0 {
        crc
    } else {
        crc_bits(poly, crc_run(poly, crc, s.drop_last()) ^ (s.last() as u32), 8)
    }
}

/// The check of `s`: all ones at the start, inverted at the end.
pub open spec fn crc_of(poly: u32, s: Seq<u8>) -> u32 {
    !crc_run(poly, 0xFFFF_FFFFu32, s)
}

/// CRC-32C of `s`.
pub open spec fn crc32c(s: Seq<u8>) -> u32 {
    crc_of(POLYNOMIAL, s)
}

/// Running over one piece and then the next is running over both.
pub proof fn crc_of_pieces(poly: u32, crc: u32, a: Seq<u8>, b: Seq<u8>)
    ensures
        crc_run(poly, crc, a + b) == crc_run(poly, crc_run(poly, crc, a), b),
    decreases b.len(),
{
    if b.len() == 0 {
        assert(a + b =~= a);
    } else {
        crc_of_pieces(poly, crc, a, b.drop_last());
        assert((a + b).drop_last() =~= a + b.drop_last());
    }
}

proof fn lemma_bits_linear(poly: u32, x: u32, y: u32, n: nat)
    ensures
        crc_bits(poly, x ^ y, n) == crc_bits(poly, x, n) ^ crc_bits(poly, y, n),
    decreases n,
{
    if n > 0 {
        assert(((x ^ y) >> 1u32) ^ (if (x ^ y) & 1u32 == 1u32 {
            poly
        } else {
            0u32
        }) == ((x >> 1u32) ^ (if x & 1u32 == 1u32 {
            poly
        } else {
            0u32
        })) ^ ((y >> 1u32) ^ (if y & 1u32 == 1u32 {
            poly
        } else {
            0u32
        }))) by (bit_vector);
        lemma_bits_linear(poly, crc_bit(poly, x), crc_bit(poly, y), (n - 1) as nat);
    }
}

proof fn lemma_bits_compose(poly: u32, x: u32, m: nat, n: nat)
    ensures
        crc_bits(poly, crc_bits(poly, x, m), n) == crc_bits(poly, x, m + n),
    decreases m,
{
    if m > 0 {
        lemma_bits_compose(poly, crc_bit(poly, x), (m - 1) as nat, n);
    }
}

/// Eight steps on a state whose low byte is zero only shift it.
proof fn lemma_bits_shift(poly: u32, x: u32)
    requires
        x & 0xFFu32 == 0,
    ensures
        crc_bits(poly, x, 8) == x >> 8u32,
{
    assert(x & 1u32 == 0 && (x >> 1u32) & 1u32 == 0 && ((x >> 1u32) >> 1u32) & 1u32 == 0 && (((x
        >> 1u32) >> 1u32) >> 1u32) & 1u32 == 0 && ((((x >> 1u32) >> 1u32) >> 1u32) >> 1u32) & 1u32
        == 0 && (((((x >> 1u32) >> 1u32) >> 1u32) >> 1u32) >> 1u32) & 1u32 == 0 && ((((((x >> 1u32)
        >> 1u32) >> 1u32) >> 1u32) >> 1u32) >> 1u32) & 1u32 == 0 && (((((((x >> 1u32) >> 1u32)
        >> 1u32) >> 1u32) >> 1u32) >> 1u32) >> 1u32) & 1u32 == 0 && ((((((((x >> 1u32) >> 1u32)
        >> 1u32) >> 1u32) >> 1u32) >> 1u32) >> 1u32) >> 1u32) == x >> 8u32) by (bit_vector)
        requires
            x & 0xFFu32 == 0,
    ;
    assert(forall|v: u32| v ^ 0u32 == v) by (bit_vector);
    reveal_with_fuel(crc_bits, 9);
}

/// A byte's steps on any state, by the low byte and the rest.
proof fn lemma_byte_step(poly: u32, x: u32)
    ensures
        crc_bits(poly, x, 8) == (x >> 8u32) ^ crc_bits(poly, x & 0xFFu32, 8),
{
    let high = x & 0xFFFF_FF00u32;
    let low = x & 0xFFu32;
    assert(high ^ low == x && high & 0xFFu32 == 0 && high >> 8u32 == x >> 8u32) by (bit_vector)
        requires
            high == x & 0xFFFF_FF00u32,
            low == x & 0xFFu32,
    ;
    lemma_bits_linear(poly, high, low, 8);
    lemma_bits_shift(poly, high);
}

/// What entry `b` of table `k` is: byte `b` followed by `k` zero bytes.
pub open spec fn table_entry(k: nat, b: nat) -> u32 {
    crc_bits(POLYNOMIAL, b as u32, 8 * (k + 1))
}

/// The tables that let one step take eight bytes at once.
pub open spec fn tables_ok(t: Seq<Vec<u32>>) -> bool {
    &&& t.len() == 8
    &&& forall|k: int| 0 <= k < 8 ==> (#[trigger] t[k])@.len() == 256
    &&& forall|k: int, b: int|
        0 <= k < 8 && 0 <= b < 256 ==> #[trigger] t[k]@[b] == table_entry(k as nat, b as nat)
}

/// One bit's step, computed.
fn step_bit(poly: u32, crc: u32) -> (r: u32)
    ensures
        r == crc_bit(poly, crc),
{
    (crc >> 1u32) ^ (if crc & 1u32 == 1u32 {
        poly
    } else {
        0u32
    })
}

/// A byte's steps, one bit at a time.
pub fn step_byte(poly: u32, crc: u32, byte: u8) -> (r: u32)
    ensures
        r == crc_bits(poly, crc ^ (byte as u32), 8),
{
    let mut c: u32 = crc ^ (byte as u32);
    let ghost start = c;
    for i in 0..8
        invariant
            crc_bits(poly, c, (8 - i) as nat) == crc_bits(poly, start, 8),
    {
        c = step_bit(poly, c);
    }
    c
}

/// The check with polynomial `poly`, computed bit by bit.
pub fn bitwise(poly: u32, bytes: &[u8]) -> (r: u32)
    ensures
        r == crc_of(poly, bytes@),
{
    let n: usize = bytes.len();
    let mut crc: u32 = 0xFFFF_FFFF;
    assert(bytes@.take(0) =~= seq![]);
    for i in 0..n
        invariant
            n == bytes@.len(),
            crc == crc_run(poly, 0xFFFF_FFFF, bytes@.take(i as int)),
    {
        assert(bytes@.take(i + 1).drop_last() =~= bytes@.take(i as int));
        crc = step_byte(poly, crc, bytes[i]);
    }
    assert(bytes@.take(n as int) =~= bytes@);
    !crc
}

/// The tables: table 0 holds the check of each byte alone, table `k` the
/// same byte followed by `k` zero bytes.
pub fn tables() -> (t: Vec<Vec<u32>>)
    ensures
        tables_ok(t@),
{
    let mut first: Vec<u32> = Vec::with_capacity(256);
    for byte in 0..256usize
        invariant
            first@.len() == byte,
            forall|b: int| 0 <= b < byte ==> #[trigger] first@[b] == table_entry(0, b as nat),
    {
        let c: u8 = byte as u8;
        assert(0u32 ^ (c as u32) == c as u32) by (bit_vector);
        first.push(step_byte(POLYNOMIAL, 0, c));
    }
    let mut t: Vec<Vec<u32>> = Vec::with_capacity(8);
    t.push(first);
    for k in 1..8usize
        invariant
            t@.len() == k,
            forall|j: int| 0 <= j < k ==> (#[trigger] t@[j])@.len() == 256,
            forall|j: int, b: int|
                0 <= j < k && 0 <= b < 256 ==> #[trigger] t@[j]@[b] == table_entry(
                    j as nat,
                    b as nat,
                ),
    {
        let mut next: Vec<u32> = Vec::with_capacity(256);
        for byte in 0..256usize
            invariant
                1 <= k < 8,
                t@.len() == k,
                forall|j: int| 0 <= j < k ==> (#[trigger] t@[j])@.len() == 256,
                forall|j: int, b: int|
                    0 <= j < k && 0 <= b < 256 ==> #[trigger] t@[j]@[b] == table_entry(
                        j as nat,
                        b as nat,
                    ),
                next@.len() == byte,
                forall|b: int|
                    0 <= b < byte ==> #[trigger] next@[b] == table_entry(k as nat, b as nat),
        {
            let previous: u32 = t[k - 1][byte];
            let low: u32 = previous & 0xFF;
            assert(low < 256) by (bit_vector)
                requires
                    low == previous & 0xFFu32,
            ;
            let entry: u32 = (previous >> 8u32) ^ t[0][low as usize];
            proof {
                lemma_byte_step(POLYNOMIAL, previous);
                lemma_bits_compose(POLYNOMIAL, byte as u32, 8 * (k as nat), 8);
                assert(t@[0]@[low as int] == table_entry(0, low as nat));
                assert(8 * (k as nat) + 8 == 8 * (k as nat + 1));
            }
            next.push(entry);
        }
        t.push(next);
    }
    t
}

/// Eight bytes' steps, by tables.
proof fn lemma_eight_bytes(crc: u32, s: Seq<u8>, low: u32, high: u32)
    requires
        s.len() == 8,
        low == from_le(s.take(4)) as u32 ^ crc,
        high == from_le(s.skip(4)) as u32,
    ensures
        crc_run(POLYNOMIAL, crc, s) == table_entry(7, (low & 0xFFu32) as nat) ^ table_entry(
            6,
            ((low >> 8u32) & 0xFFu32) as nat,
        ) ^ table_entry(5, ((low >> 16u32) & 0xFFu32) as nat) ^ table_entry(
            4,
            (low >> 24u32) as nat,
        ) ^ table_entry(3, (high & 0xFFu32) as nat) ^ table_entry(
            2,
            ((high >> 8u32) & 0xFFu32) as nat,
        ) ^ table_entry(1, ((high >> 16u32) & 0xFFu32) as nat) ^ table_entry(
            0,
            (high >> 24u32) as nat,
        ),
{
    let p = POLYNOMIAL;
    let b0 = s[0] as u32;
    let b1 = s[1] as u32;
    let b2 = s[2] as u32;
    let b3 = s[3] as u32;
    let b4 = s[4] as u32;
    let b5 = s[5] as u32;
    let b6 = s[6] as u32;
    let b7 = s[7] as u32;
    // The words the bytes make.
    lemma_word(s.take(4));
    lemma_word(s.skip(4));
    let word = from_le(s.take(4)) as u32;
    assert(word == b0 | (b1 << 8u32) | (b2 << 16u32) | (b3 << 24u32));
    assert(high == b4 | (b5 << 8u32) | (b6 << 16u32) | (b7 << 24u32));
    assert(high & 0xFFu32 == b4 && (high >> 8u32) & 0xFFu32 == b5 && (high >> 16u32) & 0xFFu32
        == b6 && high >> 24u32 == b7) by (bit_vector)
        requires
            high == b4 | (b5 << 8u32) | (b6 << 16u32) | (b7 << 24u32),
            b4 < 256,
            b5 < 256,
            b6 < 256,
            b7 < 256,
    ;
    let l0 = low & 0xFFu32;
    let l1 = (low >> 8u32) & 0xFFu32;
    let l2 = (low >> 16u32) & 0xFFu32;
    let l3 = low >> 24u32;
    // The run, unrolled.
    let c1 = crc_bits(p, crc ^ b0, 8);
    let c2 = crc_bits(p, c1 ^ b1, 8);
    let c3 = crc_bits(p, c2 ^ b2, 8);
    let c4 = crc_bits(p, c3 ^ b3, 8);
    let c5 = crc_bits(p, c4 ^ b4, 8);
    let c6 = crc_bits(p, c5 ^ b5, 8);
    let c7 = crc_bits(p, c6 ^ b6, 8);
    let c8 = crc_bits(p, c7 ^ b7, 8);
    assert(crc_run(p, crc, s) == c8) by {
        reveal_with_fuel(crc_run, 9);
        assert(s.drop_last().drop_last().drop_last().drop_last().drop_last().drop_last().drop_last().drop_last().len()
            == 0);
    }
    // After four bytes the state is that of `low` after 32 bits.
    let m1 = b1 << 8u32;
    let m2 = b2 << 16u32;
    let m3 = b3 << 24u32;
    assert(low == (crc ^ b0) ^ m1 ^ m2 ^ m3 && m1 & 0xFFu32 == 0 && m1 >> 8u32 == b1 && m2 & 0xFFu32
        == 0 && (m2 >> 8u32) & 0xFFu32 == 0 && (m2 >> 8u32) >> 8u32 == b2 && m3 & 0xFFu32 == 0 && (
    m3 >> 8u32) & 0xFFu32 == 0 && ((m3 >> 8u32) >> 8u32) & 0xFFu32 == 0 && ((m3 >> 8u32) >> 8u32)
        >> 8u32 == b3) by (bit_vector)
        requires
            low == word ^ crc,
            word == b0 | (b1 << 8u32) | (b2 << 16u32) | (b3 << 24u32),
            m1 == b1 << 8u32,
            m2 == b2 << 16u32,
            m3 == b3 << 24u32,
            b0 < 256,
            b1 < 256,
            b2 < 256,
            b3 < 256,
    ;
    lemma_bits_shift(p, m1);
    lemma_bits_shift(p, m2);
    lemma_bits_shift(p, m2 >> 8u32);
    lemma_bits_shift(p, m3);
    lemma_bits_shift(p, m3 >> 8u32);
    lemma_bits_shift(p, (m3 >> 8u32) >> 8u32);
    let x0 = crc ^ b0;
    lemma_four_bytes(p, x0, b1, b2, b3, m1, m2, m3);
    assert(c4 == crc_bits(p, low, 32));
    // And `low` after 32 bits is its four bytes, each by itself.
    let n1 = l1 << 8u32;
    let n2 = l2 << 16u32;
    let n3 = l3 << 24u32;
    assert(low == l0 ^ n1 ^ n2 ^ n3 && n1 & 0xFFu32 == 0 && n1 >> 8u32 == l1 && n2 & 0xFFu32 == 0
        && (n2 >> 8u32) & 0xFFu32 == 0 && (n2 >> 8u32) >> 8u32 == l2 && n3 & 0xFFu32 == 0 && (n3
        >> 8u32) & 0xFFu32 == 0 && ((n3 >> 8u32) >> 8u32) & 0xFFu32 == 0 && ((n3 >> 8u32) >> 8u32)
        >> 8u32 == l3) by (bit_vector)
        requires
            l0 == low & 0xFFu32,
            l1 == (low >> 8u32) & 0xFFu32,
            l2 == (low >> 16u32) & 0xFFu32,
            l3 == low >> 24u32,
            n1 == l1 << 8u32,
            n2 == l2 << 16u32,
            n3 == l3 << 24u32,
    ;
    lemma_bits_shift(p, n1);
    lemma_bits_shift(p, n2);
    lemma_bits_shift(p, n2 >> 8u32);
    lemma_bits_shift(p, n3);
    lemma_bits_shift(p, n3 >> 8u32);
    lemma_bits_shift(p, (n3 >> 8u32) >> 8u32);
    lemma_four_bytes(p, l0, l1, l2, l3, n1, n2, n3);
    let d4 = crc_bits(p, crc_bits(p, crc_bits(p, crc_bits(p, l0, 8) ^ l1, 8) ^ l2, 8) ^ l3, 8);
    assert(c4 == d4);
    lemma_bytes_apart(p, l0, l1, l2, l3);
    lemma_bits_compose(p, l0, 32, 32);
    lemma_bits_compose(p, l1, 24, 32);
    lemma_bits_compose(p, l2, 16, 32);
    lemma_bits_compose(p, l3, 8, 32);
    let a = crc_bits(p, l0, 32) ^ crc_bits(p, l1, 24) ^ crc_bits(p, l2, 16) ^ crc_bits(p, l3, 8);
    assert(c4 == a);
    lemma_bytes_apart(p, c4 ^ b4, b5, b6, b7);
    lemma_bits_linear(p, c4, b4, 32);
    lemma_bits_linear(
        p,
        crc_bits(p, l0, 32) ^ crc_bits(p, l1, 24) ^ crc_bits(p, l2, 16),
        crc_bits(p, l3, 8),
        32,
    );
    lemma_bits_linear(p, crc_bits(p, l0, 32) ^ crc_bits(p, l1, 24), crc_bits(p, l2, 16), 32);
    lemma_bits_linear(p, crc_bits(p, l0, 32), crc_bits(p, l1, 24), 32);
    assert(l0 as nat as u32 == l0 && l1 as nat as u32 == l1);
}

/// Four bytes taken one after the other, each seen alone.
proof fn lemma_bytes_apart(p: u32, x0: u32, x1: u32, x2: u32, x3: u32)
    ensures
        crc_bits(p, crc_bits(p, crc_bits(p, crc_bits(p, x0, 8) ^ x1, 8) ^ x2, 8) ^ x3, 8)
            == crc_bits(p, x0, 32) ^ crc_bits(p, x1, 24) ^ crc_bits(p, x2, 16) ^ crc_bits(p, x3, 8),
{
    let y1 = crc_bits(p, x0, 8);
    lemma_bits_linear(p, y1, x1, 8);
    lemma_bits_compose(p, x0, 8, 8);
    let y2 = crc_bits(p, x0, 16) ^ crc_bits(p, x1, 8);
    lemma_bits_linear(p, y2, x2, 8);
    lemma_bits_linear(p, crc_bits(p, x0, 16), crc_bits(p, x1, 8), 8);
    lemma_bits_compose(p, x0, 16, 8);
    lemma_bits_compose(p, x1, 8, 8);
    let y3 = crc_bits(p, x0, 24) ^ crc_bits(p, x1, 16) ^ crc_bits(p, x2, 8);
    lemma_bits_linear(p, y3, x3, 8);
    lemma_bits_linear(p, crc_bits(p, x0, 24) ^ crc_bits(p, x1, 16), crc_bits(p, x2, 8), 8);
    lemma_bits_linear(p, crc_bits(p, x0, 24), crc_bits(p, x1, 16), 8);
    lemma_bits_compose(p, x0, 24, 8);
    lemma_bits_compose(p, x1, 16, 8);
    lemma_bits_compose(p, x2, 8, 8);
}

/// Bytes 1 to 3 taken one after the other, or all in the state at once.
proof fn lemma_four_bytes(
    p: u32,
    x0: u32,
    x1: u32,
    x2: u32,
    x3: u32,
    m1: u32,
    m2: u32,
    m3: u32,
)
    requires
        crc_bits(p, m1, 8) == x1,
        crc_bits(p, crc_bits(p, m2, 8), 8) == x2,
        crc_bits(p, crc_bits(p, crc_bits(p, m3, 8), 8), 8) == x3,
    ensures
        crc_bits(p, crc_bits(p, crc_bits(p, crc_bits(p, x0, 8) ^ x1, 8) ^ x2, 8) ^ x3, 8)
            == crc_bits(p, x0 ^ m1 ^ m2 ^ m3, 32),
{
    lemma_bytes_apart(p, x0, x1, x2, x3);
    lemma_bits_compose(p, m1, 8, 24);
    lemma_bits_compose(p, m2, 8, 8);
    lemma_bits_compose(p, m2, 16, 16);
    lemma_bits_compose(p, m3, 8, 8);
    lemma_bits_compose(p, m3, 16, 8);
    lemma_bits_compose(p, m3, 24, 8);
    lemma_bits_linear(p, x0 ^ m1 ^ m2, m3, 32);
    lemma_bits_linear(p, x0 ^ m1, m2, 32);
    lemma_bits_linear(p, x0, m1, 32);
}

/// A little-endian word in terms of its bytes' bits.
proof fn lemma_word(s: Seq<u8>)
    requires
        s.len() == 4,
    ensures
        from_le(s) as u32 == s[0] as u32 | ((s[1] as u32) << 8u32) | ((s[2] as u32) << 16u32) | ((
        s[3] as u32) << 24u32),
        from_le(s) < 0x1_0000_0000,
{
    reveal_with_fuel(from_le, 5);
    lemma_from_le_bound(s);
    lemma_pow256_values();
    let a = s[0] as u32;
    let b = s[1] as u32;
    let c = s[2] as u32;
    let d = s[3] as u32;
    assert(s.skip(1).skip(1).skip(1).skip(1).len() == 0);
    assert(from_le(s) == a + 256 * (b + 256 * (c + 256 * d)));
    assert(a | (b << 8u32) | (c << 16u32) | (d << 24u32) == a + 256 * b + 65536 * c + 16777216 * d)
        by (bit_vector)
        requires
            a < 256,
            b < 256,
            c < 256,
            d < 256,
    ;
}

/// The state `crc` after `bytes`, eight bytes per step.
pub fn update_table(t: &Vec<Vec<u32>>, crc: u32, bytes: &[u8]) -> (r: u32)
    requires
        tables_ok(t@),
    ensures
        r == crc_run(POLYNOMIAL, crc, bytes@),
{
    let n: usize = bytes.len();
    let mut c: u32 = crc;
    let mut i: usize = 0;
    assert(bytes@.take(0) =~= seq![]);
    while n - i >= 8
        invariant
            tables_ok(t@),
            i <= n == bytes@.len(),
            c == crc_run(POLYNOMIAL, crc, bytes@.take(i as int)),
        decreases n - i,
    {
        let chunk: &[u8] = slice_subrange(bytes, i, i + 8);
        let first: &[u8] = slice_subrange(chunk, 0, 4);
        let second: &[u8] = slice_subrange(chunk, 4, 8);
        proof {
            lemma_word(first@);
            lemma_word(second@);
            assert(chunk@.take(4) =~= first@);
            assert(chunk@.skip(4) =~= second@);
        }
        let low: u32 = (get_le(first) as u32) ^ c;
        let high: u32 = get_le(second) as u32;
        let i0: u32 = low & 0xFF;
        let i1: u32 = (low >> 8u32) & 0xFF;
        let i2: u32 = (low >> 16u32) & 0xFF;
        let i3: u32 = low >> 24u32;
        let i4: u32 = high & 0xFF;
        let i5: u32 = (high >> 8u32) & 0xFF;
        let i6: u32 = (high >> 16u32) & 0xFF;
        let i7: u32 = high >> 24u32;
        assert(forall|v: u32| v & 0xFFu32 < 256 && v >> 24u32 < 256) by (bit_vector);
        let next: u32 = t[7][i0 as usize] ^ t[6][i1 as usize] ^ t[5][i2 as usize] ^ t[4][i3 as usize]
            ^ t[3][i4 as usize] ^ t[2][i5 as usize] ^ t[1][i6 as usize] ^ t[0][i7 as usize];
        proof {
            lemma_eight_bytes(c, chunk@, low, high);
            crc_of_pieces(POLYNOMIAL, crc, bytes@.take(i as int), chunk@);
            assert(bytes@.take(i + 8) =~= bytes@.take(i as int) + chunk@);
        }
        c = next;
        i = i + 8;
    }
    while i < n
        invariant
            tables_ok(t@),
            i <= n == bytes@.len(),
            c == crc_run(POLYNOMIAL, crc, bytes@.take(i as int)),
        decreases n - i,
    {
        let x: u32 = c ^ (bytes[i] as u32);
        let low: u32 = x & 0xFF;
        let b: u32 = bytes[i] as u32;
        assert(low < 256 && x >> 8u32 == c >> 8u32) by (bit_vector)
            requires
                low == x & 0xFFu32,
                x == c ^ b,
                b < 256,
        ;
        proof {
            lemma_byte_step(POLYNOMIAL, x);
            assert(t@[0]@[low as int] == table_entry(0, low as nat));
            assert(bytes@.take(i + 1).drop_last() =~= bytes@.take(i as int));
        }
        c = (c >> 8u32) ^ t[0][low as usize];
        i = i + 1;
    }
    assert(bytes@.take(n as int) =~= bytes@);
    c
}

/// A check over several pieces, as if they were one: `new`, `update` per
/// piece, `finish`.
pub struct Crc32 {
    state: u32,
    tables: Vec<Vec<u32>>,
    seen: Ghost<Seq<u8>>,
}

impl Crc32 {
    pub closed spec fn wf(&self) -> bool {
        &&& tables_ok(self.tables@)
        &&& self.state == crc_run(POLYNOMIAL, 0xFFFF_FFFF, self.seen@)
    }

    /// The pieces so far, as one.
    pub closed spec fn view(&self) -> Seq<u8> {
        self.seen@
    }

    pub fn new() -> (r: Crc32)
        ensures
            r.wf(),
            r@ == Seq::<u8>::empty(),
    {
        Crc32 { state: 0xFFFF_FFFF, tables: tables(), seen: Ghost(Seq::empty()) }
    }

    pub fn update(&mut self, bytes: &[u8])
        requires
            old(self).wf(),
        ensures
            final(self).wf(),
            final(self)@ == old(self)@ + bytes@,
    {
        proof {
            crc_of_pieces(POLYNOMIAL, 0xFFFF_FFFF, self.seen@, bytes@);
        }
        self.state = update_table(&self.tables, self.state, bytes);
        self.seen = Ghost(self.seen@ + bytes@);
    }

    pub fn finish(&self) -> (r: u32)
        requires
            self.wf(),
        ensures
            r == crc32c(self@),
    {
        !self.state
    }
}

/// CRC-32C of `bytes`.
pub fn crc32(bytes: &[u8]) -> (r: u32)
    ensures
        r == crc32c(bytes@),
{
    let mut crc = Crc32::new();
    crc.update(bytes);
    assert(Seq::<u8>::empty() + bytes@ =~= bytes@);
    crc.finish()
}

} // verus!
