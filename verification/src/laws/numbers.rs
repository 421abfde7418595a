//! What floats stand for, and which one an integer becomes.

use super::comparing::is_number;
use crate::document::DocModel;
use crate::filter::value_meets;
use crate::number::{
    float_of_int, float_of_nat, lemma_nat_bound, lemma_significand, lemma_top_bit, nan, rank,
    rounded_quotient, rounding_keeps_order, significand, top_bit,
};
use crate::query::Op;
use vstd::arithmetic::power2::{lemma2_to64, lemma2_to64_rest, lemma_pow2_adds, lemma_pow2_pos, pow2};
use vstd::prelude::*;

verus! {

/// What the bits of a float without its sign stand for, times 2^1074, so that it
/// is whole: 52 bits of significand, and above them the exponent; a leading bit
/// that isn't written unless the exponent is zero. Infinity stands as the power
/// of two that comes next.
pub open spec fn scaled_magnitude(bits: nat) -> nat {
    let exponent = bits / 0x10_0000_0000_0000;
    let fraction = bits % 0x10_0000_0000_0000;
    if exponent == 0 {
        fraction
    } else {
        (0x10_0000_0000_0000 + fraction) * pow2((exponent - 1) as nat)
    }
}

/// What a float stands for, times 2^1074.
pub open spec fn scaled(bits: u64) -> int {
    if bits < 0x8000_0000_0000_0000 {
        scaled_magnitude(bits as nat) as int
    } else {
        -(scaled_magnitude((bits - 0x8000_0000_0000_0000) as nat) as int)
    }
}

/// More bits stand for more.
proof fn lemma_scaled_ascends(a: nat, b: nat)
    requires
        a < b,
    ensures
        scaled_magnitude(a) < scaled_magnitude(b),
{
    let p: nat = 0x10_0000_0000_0000;
    let ea = a / p;
    let eb = b / p;
    let fa = a % p;
    let fb = b % p;
    assert(ea < eb || (ea == eb && fa < fb));
    if ea == eb {
        if ea > 0 {
            let x = pow2((ea - 1) as nat);
            lemma_pow2_pos((ea - 1) as nat);
            assert((p + fa) * x < (p + fb) * x) by (nonlinear_arith)
                requires
                    fa < fb,
                    x > 0,
            ;
        }
    } else {
        let y = pow2((eb - 1) as nat);
        lemma_pow2_pos((eb - 1) as nat);
        assert(p * y <= (p + fb) * y) by (nonlinear_arith)
            requires
                fb >= 0,
                y >= 0,
                p >= 0,
        ;
        if ea == 0 {
            assert(p <= p * y) by (nonlinear_arith)
                requires
                    y >= 1,
                    p >= 0,
            ;
        } else {
            let x = pow2((ea - 1) as nat);
            lemma_pow2_pos((ea - 1) as nat);
            lemma_pow2_adds(1, (ea - 1) as nat);
            lemma2_to64();
            assert(pow2(ea) == 2 * x);
            lemma_pow2_adds(ea, (eb - 1 - ea) as nat);
            lemma_pow2_pos((eb - 1 - ea) as nat);
            let z = pow2((eb - 1 - ea) as nat);
            assert(y == 2 * x * z);
            assert((p + fa) * x < p * y) by (nonlinear_arith)
                requires
                    fa < p,
                    x > 0,
                    z >= 1,
                    y == 2 * x * z,
                    p >= 0,
            ;
        }
    }
}

pub proof fn lemma_scaled_rank(a: u64, b: u64)
    ensures
        rank(a) < rank(b) <==> scaled(a) < scaled(b),
        rank(a) == rank(b) <==> scaled(a) == scaled(b),
{
    let half: u64 = 0x8000_0000_0000_0000;
    let x = if a < half {
        a as nat
    } else {
        (a - half) as nat
    };
    let y = if b < half {
        b as nat
    } else {
        (b - half) as nat
    };
    assert(scaled_magnitude(0) == 0);
    if x > 0 {
        lemma_scaled_ascends(0, x);
    }
    if y > 0 {
        lemma_scaled_ascends(0, y);
    }
    if x < y {
        lemma_scaled_ascends(x, y);
    }
    if y < x {
        lemma_scaled_ascends(y, x);
    }
}

/// Floats compare as the numbers that they stand for.
pub proof fn floats_compare_as_numbers(a: u64, b: u64)
    requires
        !nan(a),
        !nan(b),
    ensures
        value_meets(Op::Lt, DocModel::Float(a), DocModel::Float(b)) <==> scaled(a) < scaled(b),
        value_meets(Op::Eq, DocModel::Float(a), DocModel::Float(b)) <==> scaled(a) == scaled(b),
        value_meets(Op::Gt, DocModel::Float(a), DocModel::Float(b)) <==> scaled(a) > scaled(b),
{
    lemma_scaled_rank(a, b);
}

/// Which floats are no numbers: those with the highest exponent and a fraction.
pub proof fn what_is_not_a_number(bits: u64)
    ensures
        nan(bits) <==> (bits % 0x8000_0000_0000_0000) / 0x10_0000_0000_0000 == 0x7FF && bits
            % 0x10_0000_0000_0000 != 0,
{
}

/// What a significand and an exponent stand for.
proof fn lemma_stands_for(e: nat, sig: nat)
    requires
        0x10_0000_0000_0000 <= sig <= 0x20_0000_0000_0000,
    ensures
        scaled_magnitude((e * 0x10_0000_0000_0000 + sig) as nat) == sig * pow2(e),
{
    let p: nat = 0x10_0000_0000_0000;
    let bits = (e * p + sig) as nat;
    if sig < 2 * p {
        assert(bits / p == e + 1 && bits % p == sig - p);
    } else {
        assert(bits / p == e + 2 && bits % p == 0);
        lemma_pow2_adds(1, e);
        lemma2_to64();
        assert(pow2(e + 1) == 2 * pow2(e));
        assert(p * (2 * pow2(e)) == sig * pow2(e)) by (nonlinear_arith)
            requires
                sig == 2 * p,
        ;
    }
}

/// What a positive integer's float stands for, and the floats beside it.
proof fn lemma_nat_stands_for(m: nat)
    requires
        1 <= m <= 0x8000_0000_0000_0000,
    ensures
        scaled_magnitude(float_of_nat(m)) == significand(m) * pow2(top_bit(m) + 1022),
        top_bit(m) <= 52 ==> scaled_magnitude(float_of_nat(m)) == m * pow2(1074),
{
    lemma_significand(m);
    let e = top_bit(m);
    lemma_stands_for(e + 1022, significand(m));
    if e <= 52 {
        let f = pow2((52 - e) as nat);
        lemma_pow2_adds((52 - e) as nat, e + 1022);
        assert((m * f) * pow2(e + 1022) == m * (f * pow2(e + 1022))) by (nonlinear_arith);
    }
}

/// An integer's float is one of the two beside it, the nearer one.
proof fn lemma_nearest(m: nat, g: nat)
    requires
        1 <= m <= 0x8000_0000_0000_0000,
    ensures
        ({
            let exact = m * pow2(1074);
            let near = scaled_magnitude(float_of_nat(m));
            let other = scaled_magnitude(g);
            &&& gap(exact as int, near as int) <= gap(exact as int, other as int)
            &&& gap(exact as int, near as int) == gap(exact as int, other as int) && near != other
                ==> float_of_nat(m) % 2 == 0
        }),
{
    lemma_nat_stands_for(m);
    let e = top_bit(m);
    let unit = pow2(1074);
    lemma_pow2_pos(1074);
    if e > 52 {
        lemma_top_bit(m);
        lemma_significand(m);
        let p: nat = 0x10_0000_0000_0000;
        let d = pow2((e - 52) as nat);
        lemma_pow2_pos((e - 52) as nat);
        lemma_pow2_adds(52, (e - 52) as nat);
        lemma_pow2_adds(53, (e - 52) as nat);
        lemma2_to64();
        lemma2_to64_rest();
        lemma_pow2_adds((e - 52) as nat, 1074);
        let q = m / d;
        let r = m % d;
        let step = pow2(e + 1022);
        assert(step == d * unit);
        assert(p <= q < 2 * p && m == q * d + r && r < d) by (nonlinear_arith)
            requires
                p * d <= m < 2 * p * d,
                d >= 1,
                q == m / d,
                r == m % d,
        ;
        lemma_stands_for(e + 1022, q);
        lemma_stands_for(e + 1022, q + 1);
        let low = ((e + 1022) * p + q) as nat;
        let near = significand(m);
        assert(near == rounded_quotient(m, d));
        let other = scaled_magnitude(g);
        if g < low {
            lemma_scaled_ascends(g, low);
        } else if g > low + 1 {
            lemma_scaled_ascends(low + 1, g);
        }
        assert(other <= q * step || other >= (q + 1) * step);
        let exact = m * unit;
        assert(exact == q * step + r * unit) by (nonlinear_arith)
            requires
                m == q * d + r,
                step == d * unit,
                exact == m * unit,
        ;
        assert((q + 1) * step == q * step + step) by (nonlinear_arith);
        let left = r * unit;
        assert(2 * left > step <==> 2 * r > d) by (nonlinear_arith)
            requires
                left == r * unit,
                step == d * unit,
                unit >= 1,
        ;
        assert(2 * left == step <==> 2 * r == d) by (nonlinear_arith)
            requires
                left == r * unit,
                step == d * unit,
                unit >= 1,
        ;
        assert(left <= step) by (nonlinear_arith)
            requires
                left == r * unit,
                step == d * unit,
                r < d,
                unit >= 1,
        ;
        assert(float_of_nat(m) == (e + 1022) * p + near);
        assert(near == q || near == q + 1);
        if near == q {
            assert(scaled_magnitude(float_of_nat(m)) == q * step);
        } else {
            assert(scaled_magnitude(float_of_nat(m)) == (q + 1) * step);
        }
        if 2 * r == d {
            assert(near % 2 == 0);
        }
    }
}

/// How far apart two numbers are.
pub open spec fn gap(a: int, b: int) -> int {
    if a < b {
        b - a
    } else {
        a - b
    }
}

proof fn lemma_int_float(n: i64)
    ensures
        n >= 0 ==> float_of_int(n) as nat == float_of_nat(n as nat) && float_of_nat(n as nat)
            < 0x8000_0000_0000_0000,
        n < 0 ==> float_of_int(n) as int == 0x8000_0000_0000_0000 + float_of_nat(
            (-(n as int)) as nat,
        ) && float_of_nat((-(n as int)) as nat) < 0x8000_0000_0000_0000,
        scaled(float_of_int(n)) == if n >= 0 {
            scaled_magnitude(float_of_nat(n as nat)) as int
        } else {
            -(scaled_magnitude(float_of_nat((-(n as int)) as nat)) as int)
        },
{
    if n >= 0 {
        lemma_nat_bound(n as nat);
    } else {
        lemma_nat_bound((-(n as int)) as nat);
    }
}

/// An integer becomes the float nearest to it: no other is nearer, and of two
/// that are as near it is the even one.
pub proof fn an_integer_becomes_the_nearest_float(n: i64, other: u64)
    ensures
        ({
            let exact = n * pow2(1074);
            let near = scaled(float_of_int(n));
            &&& gap(exact, near) <= gap(exact, scaled(other))
            &&& gap(exact, near) == gap(exact, scaled(other)) && near != scaled(other)
                ==> float_of_int(n) % 2 == 0
        }),
{
    lemma_int_float(n);
    let unit = pow2(1074);
    lemma_pow2_pos(1074);
    let exact = n * unit;
    assert(scaled_magnitude(0) == 0);
    if n == 0 {
        assert(exact == 0) by (nonlinear_arith)
            requires
                exact == n * unit,
                n == 0,
        ;
    } else {
        let m = if n >= 0 {
            n as nat
        } else {
            (-(n as int)) as nat
        };
        let size = m * unit;
        assert(exact == size || exact == -size) by (nonlinear_arith)
            requires
                exact == n * unit,
                size == m * unit,
                m == n || m == -n,
        ;
        assert(size > 0 && (n > 0 ==> exact == size) && (n < 0 ==> exact == -size)) by (
        nonlinear_arith)
            requires
                exact == n * unit,
                size == m * unit,
                n > 0 ==> m == n,
                n < 0 ==> m == -n,
                n != 0,
                unit >= 1,
        ;
        let same_side = (n > 0) == (other < 0x8000_0000_0000_0000);
        let g = if other < 0x8000_0000_0000_0000 {
            other as nat
        } else {
            (other - 0x8000_0000_0000_0000) as nat
        };
        // Zero is nearer than what is on the other side of it.
        lemma_nearest(m, if same_side {
            g
        } else {
            0
        });
        if !same_side {
            lemma_nearest(m, g);
        }
    }
}

/// Up to 2^53 an integer is a float, the one that stands for it.
pub proof fn small_integers_are_floats(n: i64)
    requires
        -0x20_0000_0000_0000 <= n <= 0x20_0000_0000_0000,
    ensures
        scaled(float_of_int(n)) == n * pow2(1074),
{
    lemma_int_float(n);
    let unit = pow2(1074);
    if n == 0 {
        assert(n * unit == 0) by (nonlinear_arith)
            requires
                n == 0,
        ;
    } else {
        let m = if n >= 0 {
            n as nat
        } else {
            (-(n as int)) as nat
        };
        lemma_nat_stands_for(m);
        lemma_top_bit(m);
        lemma2_to64();
        lemma2_to64_rest();
        let e = top_bit(m);
        if e >= 54 {
            lemma_pow2_adds(54, (e - 54) as nat);
            lemma_pow2_pos((e - 54) as nat);
            assert(pow2(e) >= pow2(54)) by (nonlinear_arith)
                requires
                    pow2(e) == pow2(54) * pow2((e - 54) as nat),
                    pow2((e - 54) as nat) >= 1,
                    pow2(54) >= 0,
            ;
        }
        if e == 53 {
            assert(m == 0x20_0000_0000_0000);
            assert(significand(m) == 0x10_0000_0000_0000);
            lemma_pow2_adds(1, 1074);
            assert(0x10_0000_0000_0000 * pow2(1075) == m * unit) by (nonlinear_arith)
                requires
                    pow2(1075) == 2 * unit,
                    m == 0x20_0000_0000_0000,
            ;
        }
        assert(n < 0 ==> n * unit == -(m * unit)) by (nonlinear_arith)
            requires
                n < 0 ==> m == -n,
        ;
    }
}

/// An integer up to 2^53 compares with a float as the numbers do that they
/// stand for.
pub proof fn integers_compare_with_floats(n: i64, f: u64)
    requires
        -0x20_0000_0000_0000 <= n <= 0x20_0000_0000_0000,
        !nan(f),
    ensures
        value_meets(Op::Lt, DocModel::Int(n), DocModel::Float(f)) <==> n * pow2(1074) < scaled(f),
        value_meets(Op::Eq, DocModel::Int(n), DocModel::Float(f)) <==> n * pow2(1074) == scaled(f),
        value_meets(Op::Gt, DocModel::Int(n), DocModel::Float(f)) <==> n * pow2(1074) > scaled(f),
        value_meets(Op::Lt, DocModel::Float(f), DocModel::Int(n)) <==> scaled(f) < n * pow2(1074),
        value_meets(Op::Eq, DocModel::Float(f), DocModel::Int(n)) <==> scaled(f) == n * pow2(1074),
        value_meets(Op::Gt, DocModel::Float(f), DocModel::Int(n)) <==> scaled(f) > n * pow2(1074),
{
    rounding_keeps_order(n, n);
    small_integers_are_floats(n);
    lemma_scaled_rank(float_of_int(n), f);
    lemma_scaled_rank(f, float_of_int(n));
}

/// Any integer compares with a float as its own float does.
pub proof fn an_integer_compares_as_its_float(op: Op, n: i64, f: u64)
    requires
        op != Op::Contains,
    ensures
        value_meets(op, DocModel::Int(n), DocModel::Float(f)) <==> value_meets(
            op,
            DocModel::Float(float_of_int(n)),
            DocModel::Float(f),
        ),
        value_meets(op, DocModel::Float(f), DocModel::Int(n)) <==> value_meets(
            op,
            DocModel::Float(f),
            DocModel::Float(float_of_int(n)),
        ),
{
}

/// What is less than something less is less, of integers and floats alike.
pub proof fn less_is_transitive(a: DocModel, b: DocModel, c: DocModel)
    requires
        is_number(a),
        is_number(b),
        is_number(c),
        value_meets(Op::Lt, a, b),
        value_meets(Op::Lt, b, c),
    ensures
        value_meets(Op::Lt, a, c),
{
    match (a, b, c) {
        (DocModel::Int(x), DocModel::Int(y), _) => {
            rounding_keeps_order(x, y);
        },
        (_, DocModel::Int(x), DocModel::Int(y)) => {
            rounding_keeps_order(x, y);
            rounding_keeps_order(y, y);
        },
        (DocModel::Int(x), _, DocModel::Int(y)) => {
            if x >= y {
                rounding_keeps_order(y, x);
            }
        },
        _ => {},
    }
}

} // verus!
