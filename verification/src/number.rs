//! Numbers as IEEE 754 bits: their order, and integers rounded to the
//! nearest float. A float is held as its 64 bits.

use vstd::arithmetic::power2::{lemma2_to64, lemma2_to64_rest, lemma_pow2_adds, lemma_pow2_pos, pow2};
use vstd::prelude::*;

verus! {

/// The bits of a float without its sign.
pub open spec fn magnitude(bits: u64) -> nat {
    (bits % 0x8000_0000_0000_0000) as nat
}

/// Whether `bits` are those of a NaN.
pub open spec fn nan(bits: u64) -> bool {
    magnitude(bits) > 0x7FF0_0000_0000_0000
}

/// A number that orders as the float does: its magnitude's bits, negated
/// for a negative float. The two zeros are both 0.
pub open spec fn rank(bits: u64) -> int {
    if bits < 0x8000_0000_0000_0000 {
        bits as int
    } else {
        0x8000_0000_0000_0000 - bits
    }
}

/// Whether two floats are equal as numbers: a NaN equals nothing, and the
/// two zeros are equal.
pub open spec fn float_equal(a: u64, b: u64) -> bool {
    !nan(a) && !nan(b) && rank(a) == rank(b)
}

/// The position of the highest bit of `m`.
pub open spec fn top_bit(m: nat) -> nat
    decreases m,
{
    if m < 2 {
        0
    } else {
        1 + top_bit(m / 2)
    }
}

/// `m / d` to the nearest integer, halves to the even one.
pub open spec fn rounded_quotient(m: nat, d: nat) -> nat {
    let q = m / d;
    let r = m % d;
    if 2 * r > d || (2 * r == d && q % 2 == 1) {
        q + 1
    } else {
        q
    }
}

/// The 53-bit significand of `m`, rounded: from 2^52 up to 2^53.
pub open spec fn significand(m: nat) -> nat {
    let e = top_bit(m);
    if e <= 52 {
        m * pow2((52 - e) as nat)
    } else {
        rounded_quotient(m, pow2((e - 52) as nat))
    }
}

/// The bits of the float nearest to `m`, halves to the even one. The
/// exponent is biased by 1023, and the significand's leading bit counts as
/// one of it; a significand that rounds up to 2^53 carries into it.
pub open spec fn float_of_nat(m: nat) -> nat {
    if m == 0 {
        0
    } else {
        (top_bit(m) + 1022) * 0x10_0000_0000_0000 + significand(m)
    }
}

/// The bits of the float nearest to `n`.
pub open spec fn float_of_int(n: i64) -> u64 {
    if n >= 0 {
        float_of_nat(n as nat) as u64
    } else {
        (0x8000_0000_0000_0000 + float_of_nat((-(n as int)) as nat)) as u64
    }
}

pub proof fn lemma_top_bit(m: nat)
    requires
        m >= 1,
    ensures
        pow2(top_bit(m)) <= m < pow2(top_bit(m) + 1),
    decreases m,
{
    lemma2_to64();
    if m >= 2 {
        lemma_top_bit(m / 2);
        let e = top_bit(m / 2);
        lemma_pow2_adds(1, e);
        lemma_pow2_adds(1, e + 1);
        assert(pow2(e + 1) == 2 * pow2(e));
        assert(pow2(e + 2) == 2 * pow2(e + 1));
    }
}

proof fn lemma_pow2_monotone(a: nat, b: nat)
    requires
        a <= b,
    ensures
        pow2(a) <= pow2(b),
{
    lemma_pow2_adds(a, (b - a) as nat);
    lemma_pow2_pos((b - a) as nat);
    lemma_pow2_pos(a);
    assert(pow2(a) <= pow2(a) * pow2((b - a) as nat)) by (nonlinear_arith)
        requires
            pow2((b - a) as nat) >= 1,
            pow2(a) >= 0,
    ;
}

proof fn lemma_top_bit_is(m: nat, e: nat)
    requires
        pow2(e) <= m < pow2(e + 1),
    ensures
        top_bit(m) == e,
{
    lemma_pow2_pos(e);
    lemma_top_bit(m);
    let f = top_bit(m);
    if f < e {
        lemma_pow2_monotone(f + 1, e);
    } else if e < f {
        lemma_pow2_monotone(e + 1, f);
    }
}

pub proof fn lemma_top_bit_monotone(a: nat, b: nat)
    requires
        1 <= a <= b,
    ensures
        top_bit(a) <= top_bit(b),
{
    lemma_top_bit(a);
    lemma_top_bit(b);
    if top_bit(b) < top_bit(a) {
        lemma_pow2_monotone(top_bit(b) + 1, top_bit(a));
    }
}

proof fn lemma_rounded_bounds(m: nat, d: nat, low: nat, high: nat)
    requires
        d >= 1,
        low * d <= m < high * d,
    ensures
        low <= rounded_quotient(m, d) <= high,
{
    let q = m / d;
    assert(low <= q < high) by (nonlinear_arith)
        requires
            d >= 1,
            low * d <= m < high * d,
            q == m / d,
    ;
}

proof fn lemma_rounded_monotone(a: nat, b: nat, d: nat)
    requires
        d >= 1,
        a <= b,
    ensures
        rounded_quotient(a, d) <= rounded_quotient(b, d),
{
    let qa = a / d;
    let qb = b / d;
    let ra = a % d;
    let rb = b % d;
    assert(qa <= qb && (qa == qb ==> ra <= rb)) by (nonlinear_arith)
        requires
            d >= 1,
            a <= b,
            qa == a / d,
            qb == b / d,
            ra == a % d,
            rb == b % d,
    ;
}

/// The significand of a positive number has its leading bit at position 52,
/// or has just rounded past it.
pub proof fn lemma_significand(m: nat)
    requires
        1 <= m,
    ensures
        0x10_0000_0000_0000 <= significand(m) <= 0x20_0000_0000_0000,
        top_bit(m) <= 52 ==> significand(m) < 0x20_0000_0000_0000,
{
    lemma_top_bit(m);
    lemma2_to64();
    lemma2_to64_rest();
    let e = top_bit(m);
    if e <= 52 {
        let f = pow2((52 - e) as nat);
        lemma_pow2_adds(e, (52 - e) as nat);
        lemma_pow2_adds(e + 1, (52 - e) as nat);
        lemma_pow2_pos((52 - e) as nat);
        assert(pow2(e) * f <= m * f && m * f < pow2(e + 1) * f) by (nonlinear_arith)
            requires
                pow2(e) <= m < pow2(e + 1),
                f >= 1,
        ;
    } else {
        let d = pow2((e - 52) as nat);
        lemma_pow2_pos((e - 52) as nat);
        lemma_pow2_adds(52, (e - 52) as nat);
        lemma_pow2_adds(53, (e - 52) as nat);
        lemma_rounded_bounds(m, d, 0x10_0000_0000_0000, 0x20_0000_0000_0000);
    }
}

/// Rounding to a float keeps the order of natural numbers.
proof fn lemma_nat_monotone(a: nat, b: nat)
    requires
        a <= b,
    ensures
        float_of_nat(a) <= float_of_nat(b),
{
    if a >= 1 {
        lemma_top_bit_monotone(a, b);
        lemma_significand(a);
        lemma_significand(b);
        let e = top_bit(a);
        if e == top_bit(b) {
            if e <= 52 {
                let f = pow2((52 - e) as nat);
                assert(a * f <= b * f) by (nonlinear_arith)
                    requires
                        a <= b,
                        f >= 0,
                ;
            } else {
                lemma_pow2_pos((e - 52) as nat);
                lemma_rounded_monotone(a, b, pow2((e - 52) as nat));
            }
        }
    }
}

/// Up to 2^53 every natural number is a float of its own.
proof fn lemma_nat_injective(a: nat, b: nat)
    requires
        float_of_nat(a) == float_of_nat(b),
        float_of_nat(a) < 0x4340_0000_0000_0000,
    ensures
        a == b,
{
    if a >= 1 {
        lemma_significand(a);
    }
    if b >= 1 {
        lemma_significand(b);
    }
    if a >= 1 && b >= 1 {
        let e = top_bit(a);
        let g = top_bit(b);
        assert(e <= 52 && g <= 52);
        assert(e == g);
        let f = pow2((52 - e) as nat);
        lemma_pow2_pos((52 - e) as nat);
        assert(a == b) by (nonlinear_arith)
            requires
                a * f == b * f,
                f >= 1,
        ;
    }
}

pub proof fn lemma_nat_bound(m: nat)
    requires
        m <= 0x8000_0000_0000_0000,
    ensures
        float_of_nat(m) <= 0x43E0_0000_0000_0000,
{
    lemma_nat_monotone(m, 0x8000_0000_0000_0000);
    lemma2_to64();
    lemma2_to64_rest();
    let top: nat = 0x8000_0000_0000_0000;
    lemma_top_bit_is(top, 63);
    assert(pow2(11) == 0x800);
    assert(top / 0x800 == 0x10_0000_0000_0000 && top % 0x800 == 0);
    assert(significand(top) == 0x10_0000_0000_0000);
}

/// Rounding integers to floats keeps their order, and gives no NaN.
pub proof fn rounding_keeps_order(a: i64, b: i64)
    requires
        a <= b,
    ensures
        rank(float_of_int(a)) <= rank(float_of_int(b)),
        !nan(float_of_int(a)),
{
    let x = if a >= 0 {
        a as nat
    } else {
        (-(a as int)) as nat
    };
    let y = if b >= 0 {
        b as nat
    } else {
        (-(b as int)) as nat
    };
    lemma_nat_bound(x);
    lemma_nat_bound(y);
    if b < 0 {
        lemma_nat_monotone(y, x);
    } else if a >= 0 {
        lemma_nat_monotone(x, y);
    }
}

/// Below 2^53 in magnitude, an integer is a float of its own.
pub proof fn small_integers_are_exact(a: i64, b: i64)
    requires
        rank(float_of_int(a)) == rank(float_of_int(b)),
        magnitude(float_of_int(a)) < 0x4340_0000_0000_0000,
    ensures
        a == b,
{
    let x = if a >= 0 {
        a as nat
    } else {
        (-(a as int)) as nat
    };
    let y = if b >= 0 {
        b as nat
    } else {
        (-(b as int)) as nat
    };
    lemma_nat_bound(x);
    lemma_nat_bound(y);
    lemma_positive(x);
    lemma_positive(y);
    lemma_nat_injective(x, y);
}

proof fn lemma_positive(m: nat)
    ensures
        m > 0 ==> float_of_nat(m) > 0,
{
    if m > 0 {
        lemma_significand(m);
    }
}

/// Whether `bits` are those of a NaN.
pub fn float_is_nan(bits: u64) -> (r: bool)
    ensures
        r == nan(bits),
{
    bits % 0x8000_0000_0000_0000 > 0x7FF0_0000_0000_0000
}

/// `rank`, computed.
pub fn float_rank(bits: u64) -> (r: i128)
    ensures
        r == rank(bits),
{
    if bits < 0x8000_0000_0000_0000 {
        bits as i128
    } else {
        0x8000_0000_0000_0000 - bits as i128
    }
}

/// The bits of the float nearest to `m`.
fn nat_to_float(m: u64) -> (bits: u64)
    requires
        m <= 0x8000_0000_0000_0000,
    ensures
        bits == float_of_nat(m as nat),
{
    if m == 0 {
        return 0;
    }
    proof {
        lemma2_to64();
        lemma2_to64_rest();
        lemma_top_bit(m as nat);
        lemma_significand(m as nat);
        lemma_nat_bound(m as nat);
    }
    let mut e: u64 = 0;
    let mut p: u64 = 1;
    while p <= m / 2
        invariant
            1 <= m <= 0x8000_0000_0000_0000,
            p == pow2(e as nat),
            p <= m,
            e < 64,
        decreases m - p,
    {
        proof {
            lemma_pow2_adds(1, e as nat);
            lemma2_to64();
            lemma2_to64_rest();
            lemma_pow2_pos(e as nat);
            if e >= 63 {
                lemma_pow2_monotone(63, e as nat);
            }
        }
        p = p * 2;
        e = e + 1;
    }
    proof {
        lemma_pow2_adds(1, e as nat);
        lemma_top_bit_is(m as nat, e as nat);
        if e > 63 {
            lemma_pow2_monotone(64, e as nat);
        }
    }
    let mut k: u64 = e;
    let significand_bits: u64 = if e <= 52 {
        let mut t: u64 = m;
        assert(m * pow2(0) == m) by (nonlinear_arith)
            requires
                pow2(0) == 1,
        ;
        while k < 52
            invariant
                e <= k <= 52,
                e == top_bit(m as nat),
                m >= 1,
                t == m * pow2((k - e) as nat),
            decreases 52 - k,
        {
            proof {
                lemma_top_bit(m as nat);
                lemma_pow2_adds(1, (k - e) as nat);
                lemma_pow2_adds((k - e) as nat, (52 - k) as nat);
                lemma_pow2_pos((52 - k - 1) as nat);
                lemma_pow2_adds(1, (52 - k - 1) as nat);
                lemma_significand(m as nat);
                lemma2_to64();
                let a = pow2((k - e) as nat) as int;
                let b = pow2((52 - k) as nat) as int;
                let c = pow2((52 - k - 1) as nat) as int;
                assert(m * (a * 2) == (m * a) * 2) by (nonlinear_arith);
                assert((m * a) * 2 <= m * (a * b)) by (nonlinear_arith)
                    requires
                        b == 2 * c,
                        c >= 1,
                        m * a >= 0,
                ;
                assert(pow2(1) == 2);
            }
            t = t * 2;
            k = k + 1;
        }
        t
    } else {
        let mut d: u64 = 1;
        let mut j: u64 = 52;
        while j < e
            invariant
                52 <= j <= e <= 63,
                d == pow2((j - 52) as nat),
            decreases e - j,
        {
            proof {
                lemma_pow2_adds(1, (j - 52) as nat);
                lemma2_to64();
                lemma_pow2_monotone((j - 52) as nat, 11);
            }
            d = d * 2;
            j = j + 1;
        }
        proof {
            lemma_pow2_pos((e - 52) as nat);
            lemma_pow2_monotone((e - 52) as nat, 11);
        }
        let q: u64 = m / d;
        let r: u64 = m % d;
        if 2 * r > d || (2 * r == d && q % 2 == 1) {
            q + 1
        } else {
            q
        }
    };
    assert(significand_bits == significand(m as nat));
    (e + 1022) * 0x10_0000_0000_0000 + significand_bits
}

/// The bits of the float nearest to `n`, halves to the even one.
pub fn int_to_float(n: i64) -> (bits: u64)
    ensures
        bits == float_of_int(n),
{
    let m: u64 = if n >= 0 {
        n as u64
    } else {
        (-(n + 1)) as u64 + 1
    };
    proof {
        lemma_nat_bound(m as nat);
    }
    let bits: u64 = nat_to_float(m);
    if n >= 0 {
        bits
    } else {
        0x8000_0000_0000_0000 + bits
    }
}

} // verus!
