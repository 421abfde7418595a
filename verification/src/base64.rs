//! Standard base64 with `=` padding (RFC 4648).

use crate::text::{lemma_ascii, utf8_text};
use vstd::prelude::*;
use vstd::utf8::encode_utf8;

verus! {

/// The ASCII code of a base64 digit.
#[verifier::opaque]
pub open spec fn digit_code(d: nat) -> u8 {
    if d < 26 {
        (65 + d) as u8
    } else if d < 52 {
        (71 + d) as u8
    } else if d < 62 {
        (d - 4) as u8
    } else if d == 62 {
        43
    } else {
        47
    }
}

/// The digit that an ASCII code stands for.
#[verifier::opaque]
pub open spec fn digit_value(c: u8) -> Option<nat> {
    if 65 <= c <= 90 {
        Some((c - 65) as nat)
    } else if 97 <= c <= 122 {
        Some((c - 71) as nat)
    } else if 48 <= c <= 57 {
        Some((c + 4) as nat)
    } else if c == 43 {
        Some(62)
    } else if c == 47 {
        Some(63)
    } else {
        None
    }
}

/// The code of `=`.
pub const PAD: u8 = 61;

/// Three bytes as one number.
pub open spec fn triple(a: u8, b: u8, c: u8) -> nat {
    (a * 65536 + b * 256 + c) as nat
}

/// Digit `i` of the four that a triple is written with.
#[verifier::opaque]
pub open spec fn triple_digit(n: nat, i: int) -> nat {
    if i == 0 {
        n / 262144
    } else if i == 1 {
        n / 4096 % 64
    } else if i == 2 {
        n / 64 % 64
    } else {
        n % 64
    }
}

/// The four codes that `len` bytes, three at most, are written with.
pub open spec fn quad_of(a: u8, b: u8, c: u8, len: nat) -> Seq<u8> {
    let n = triple(a, b, c);
    seq![
        digit_code(triple_digit(n, 0)),
        digit_code(triple_digit(n, 1)),
        if len >= 2 {
            digit_code(triple_digit(n, 2))
        } else {
            PAD
        },
        if len >= 3 {
            digit_code(triple_digit(n, 3))
        } else {
            PAD
        },
    ]
}

/// The byte at `i`, 0 if there is none.
pub open spec fn byte_or_zero(bytes: Seq<u8>, i: int) -> u8 {
    if i < bytes.len() {
        bytes[i]
    } else {
        0
    }
}

/// The ASCII codes of the base64 text of some bytes.
pub open spec fn base64_of(bytes: Seq<u8>) -> Seq<u8>
    decreases bytes.len(),
{
    if bytes.len() == 0 {
        seq![]
    } else {
        let quad = quad_of(
            bytes[0],
            byte_or_zero(bytes, 1),
            byte_or_zero(bytes, 2),
            bytes.len(),
        );
        if bytes.len() <= 3 {
            quad
        } else {
            quad + base64_of(bytes.skip(3))
        }
    }
}

/// How many `=` four codes end with.
pub open spec fn padding(a: u8, b: u8, c: u8, d: u8) -> nat {
    if d != PAD {
        0
    } else if c != PAD {
        1
    } else if b != PAD {
        2
    } else if a != PAD {
        3
    } else {
        4
    }
}

/// What a digit that may be padded away stands for.
pub open spec fn value_or_zero(c: u8, padded: bool) -> Option<nat> {
    if padded {
        Some(0)
    } else {
        digit_value(c)
    }
}

/// The bytes that four codes stand for.
pub open spec fn quad_bytes(a: u8, b: u8, c: u8, d: u8) -> Option<Seq<u8>> {
    let p = padding(a, b, c, d);
    match (digit_value(a), digit_value(b), value_or_zero(c, p >= 2), value_or_zero(d, p >= 1)) {
        (Some(w), Some(x), Some(y), Some(z)) => {
            let n = w * 262144 + x * 4096 + y * 64 + z;
            let all = seq![(n / 65536) as u8, (n / 256 % 256) as u8, (n % 256) as u8];
            Some(all.take(3 - p))
        },
        _ => None,
    }
}

/// The bytes that a base64 text, given by its ASCII codes, stands for;
/// `None` if it is no such text.
pub open spec fn base64_bytes(text: Seq<u8>) -> Option<Seq<u8>>
    decreases text.len(),
{
    if text.len() == 0 {
        Some(seq![])
    } else if text.len() < 4 {
        None
    } else {
        let p = padding(text[0], text[1], text[2], text[3]);
        if p > 2 || (p > 0 && text.len() > 4) {
            None
        } else {
            match (quad_bytes(text[0], text[1], text[2], text[3]), base64_bytes(text.skip(4))) {
                (Some(front), Some(rest)) => Some(front + rest),
                _ => None,
            }
        }
    }
}

proof fn lemma_code(d: nat)
    requires
        d < 64,
    ensures
        digit_value(digit_code(d)) == Some(d),
        digit_code(d) != PAD,
        digit_code(d) < 128,
{
    reveal(digit_code);
    reveal(digit_value);
}

proof fn lemma_digits(n: nat)
    requires
        n < 16777216,
    ensures
        triple_digit(n, 0) < 64,
        triple_digit(n, 1) < 64,
        triple_digit(n, 2) < 64,
        triple_digit(n, 3) < 64,
        triple_digit(n, 0) * 262144 + triple_digit(n, 1) * 4096 + triple_digit(n, 2) * 64
            + triple_digit(n, 3) == n,
{
    reveal(triple_digit);
}

proof fn lemma_triple(a: u8, b: u8, c: u8)
    ensures
        triple(a, b, c) < 16777216,
        (triple(a, b, c) / 65536) as u8 == a,
        (triple(a, b, c) / 256 % 256) as u8 == b,
        (triple(a, b, c) % 256) as u8 == c,
        c == 0 ==> triple_digit(triple(a, b, c), 3) == 0,
        b == 0 && c == 0 ==> triple_digit(triple(a, b, c), 2) == 0,
{
    reveal(triple_digit);
}

/// Four codes stand for the bytes they were made of.
proof fn lemma_quad(a: u8, b: u8, c: u8, len: nat)
    requires
        len >= 1,
        len < 2 ==> b == 0,
        len < 3 ==> c == 0,
    ensures
        ({
            let q = quad_of(a, b, c, len);
            let p = padding(q[0], q[1], q[2], q[3]);
            let kept = if len >= 3 {
                3
            } else {
                len
            };
            &&& q.len() == 4
            &&& p == 3 - kept
            &&& quad_bytes(q[0], q[1], q[2], q[3]) == Some(seq![a, b, c].take(kept as int))
            &&& q[0] < 128 && q[1] < 128 && q[2] < 128 && q[3] < 128
        }),
{
    let n = triple(a, b, c);
    lemma_triple(a, b, c);
    lemma_digits(n);
    let q = quad_of(a, b, c, len);
    lemma_code(triple_digit(n, 0));
    lemma_code(triple_digit(n, 1));
    lemma_code(triple_digit(n, 2));
    lemma_code(triple_digit(n, 3));
    let all = seq![(n / 65536) as u8, (n / 256 % 256) as u8, (n % 256) as u8];
    assert(all =~= seq![a, b, c]);
}

/// What base64 writes it reads back.
pub proof fn base64_reads_back(bytes: Seq<u8>)
    ensures
        base64_bytes(base64_of(bytes)) == Some(bytes),
    decreases bytes.len(),
{
    let text = base64_of(bytes);
    if bytes.len() == 0 {
        assert(bytes =~= seq![]);
    } else {
        let b = byte_or_zero(bytes, 1);
        let c = byte_or_zero(bytes, 2);
        lemma_quad(bytes[0], b, c, bytes.len());
        let q = quad_of(bytes[0], b, c, bytes.len());
        assert(text[0] == q[0] && text[1] == q[1] && text[2] == q[2] && text[3] == q[3]);
        let front = quad_bytes(q[0], q[1], q[2], q[3])->Some_0;
        let none: Seq<u8> = seq![];
        if bytes.len() <= 3 {
            assert(text.skip(4) =~= none);
            assert(base64_bytes(text.skip(4)) == Some(none));
            assert(front + none =~= bytes);
        } else {
            base64_reads_back(bytes.skip(3));
            assert(text.skip(4) =~= base64_of(bytes.skip(3)));
            assert(front + bytes.skip(3) =~= bytes);
        }
    }
}

/// Base64 is ASCII.
pub proof fn lemma_base64_ascii(bytes: Seq<u8>)
    ensures
        forall|i: int| 0 <= i < base64_of(bytes).len() ==> #[trigger] base64_of(bytes)[i] < 128,
    decreases bytes.len(),
{
    if bytes.len() > 0 {
        let b = byte_or_zero(bytes, 1);
        let c = byte_or_zero(bytes, 2);
        lemma_quad(bytes[0], b, c, bytes.len());
        let q = quad_of(bytes[0], b, c, bytes.len());
        let text = base64_of(bytes);
        if bytes.len() > 3 {
            lemma_base64_ascii(bytes.skip(3));
        }
        assert forall|i: int| 0 <= i < text.len() implies #[trigger] text[i] < 128 by {
            if i < 4 {
                assert(text[i] == q[i]);
            } else {
                assert(text[i] == base64_of(bytes.skip(3))[i - 4]);
            }
        }
    }
}

fn code_of(d: u32) -> (c: u8)
    requires
        d < 64,
    ensures
        c == digit_code(d as nat),
{
    reveal(digit_code);
    if d < 26 {
        65 + d as u8
    } else if d < 52 {
        71 + d as u8
    } else if d < 62 {
        d as u8 - 4
    } else if d == 62 {
        43
    } else {
        47
    }
}

fn value_of(c: u8) -> (r: Option<u32>)
    ensures
        match r {
            Some(v) => digit_value(c) == Some(v as nat) && v < 64,
            None => digit_value(c) is None,
        },
{
    reveal(digit_value);
    if 65 <= c && c <= 90 {
        Some(c as u32 - 65)
    } else if 97 <= c && c <= 122 {
        Some(c as u32 - 71)
    } else if 48 <= c && c <= 57 {
        Some(c as u32 + 4)
    } else if c == 43 {
        Some(62)
    } else if c == 47 {
        Some(63)
    } else {
        None
    }
}

/// Writes the four codes of `len` bytes.
fn push_quad(out: &mut Vec<u8>, a: u8, b: u8, c: u8, len: usize)
    ensures
        final(out)@ == old(out)@ + quad_of(a, b, c, len as nat),
{
    let ghost before = out@;
    let group: u32 = a as u32 * 65536 + b as u32 * 256 + c as u32;
    proof {
        lemma_triple(a, b, c);
        lemma_digits(triple(a, b, c));
        reveal(triple_digit);
    }
    out.push(code_of(group / 262144));
    out.push(code_of(group / 4096 % 64));
    out.push(
        if len >= 2 {
            code_of(group / 64 % 64)
        } else {
            PAD
        },
    );
    out.push(
        if len >= 3 {
            code_of(group % 64)
        } else {
            PAD
        },
    );
    assert(out@ =~= before + quad_of(a, b, c, len as nat));
}

/// The base64 text of some bytes.
pub fn base64_encode(bytes: &[u8]) -> (r: String)
    ensures
        encode_utf8(r@) == base64_of(bytes@),
{
    let mut out: Vec<u8> = Vec::new();
    let n: usize = bytes.len();
    let mut i: usize = 0;
    assert(bytes@.skip(0) =~= bytes@);
    assert(out@ + base64_of(bytes@) =~= base64_of(bytes@));
    while i < n
        invariant
            n == bytes@.len(),
            i <= n,
            base64_of(bytes@) == out@ + base64_of(bytes@.skip(i as int)),
        decreases n - i,
    {
        let ghost left = bytes@.skip(i as int);
        let ghost before = out@;
        let b: u8 = if n - i >= 2 {
            bytes[i + 1]
        } else {
            0
        };
        let c: u8 = if n - i >= 3 {
            bytes[i + 2]
        } else {
            0
        };
        assert(left[0] == bytes@[i as int]);
        assert(b == byte_or_zero(left, 1) && c == byte_or_zero(left, 2));
        push_quad(&mut out, bytes[i], b, c, n - i);
        if n - i > 3 {
            assert(left.skip(3) =~= bytes@.skip(i + 3));
            assert(base64_of(bytes@) =~= out@ + base64_of(bytes@.skip(i + 3)));
            i = i + 3;
        } else {
            assert(bytes@.skip(n as int).len() == 0);
            assert(base64_of(bytes@) =~= out@ + base64_of(bytes@.skip(n as int)));
            i = n;
        }
    }
    assert(bytes@.skip(n as int).len() == 0);
    assert(out@ =~= base64_of(bytes@));
    proof {
        lemma_base64_ascii(bytes@);
        lemma_ascii(out@);
    }
    match utf8_text(out) {
        Some(text) => text,
        None => String::new(),
    }
}

/// The bytes that a base64 text stands for; `None` if it is no such text.
pub fn base64_decode(text: &str) -> (r: Option<Vec<u8>>)
    ensures
        match r {
            Some(bytes) => base64_bytes(encode_utf8(text@)) == Some(bytes@),
            None => base64_bytes(encode_utf8(text@)) is None,
        },
{
    let bytes: &[u8] = text.as_bytes();
    let n: usize = bytes.len();
    let mut out: Vec<u8> = Vec::new();
    let mut i: usize = 0;
    let ghost whole = base64_bytes(bytes@);
    assert(bytes@.skip(0) =~= bytes@);
    proof {
        if whole is Some {
            assert(out@ + whole->Some_0 =~= whole->Some_0);
        }
    }
    while i < n
        invariant
            n == bytes@.len(),
            i <= n,
            bytes@ == encode_utf8(text@),
            whole == base64_bytes(bytes@),
            whole == (match base64_bytes(bytes@.skip(i as int)) {
                Some(rest) => Some(out@ + rest),
                None => None,
            }),
        decreases n - i,
    {
        let ghost left = bytes@.skip(i as int);
        let ghost before = out@;
        if n - i < 4 {
            return None;
        }
        let a: u8 = bytes[i];
        let b: u8 = bytes[i + 1];
        let c: u8 = bytes[i + 2];
        let d: u8 = bytes[i + 3];
        assert(left[0] == a && left[1] == b && left[2] == c && left[3] == d);
        assert(left.skip(4) =~= bytes@.skip(i + 4));
        let pads: usize = if d != PAD {
            0
        } else if c != PAD {
            1
        } else if b != PAD {
            2
        } else {
            3
        };
        if pads > 2 || (pads > 0 && n - i > 4) {
            return None;
        }
        let w: u32 = match value_of(a) {
            Some(v) => v,
            None => return None,
        };
        let x: u32 = match value_of(b) {
            Some(v) => v,
            None => return None,
        };
        let y: u32 = if pads >= 2 {
            0
        } else {
            match value_of(c) {
                Some(v) => v,
                None => return None,
            }
        };
        let z: u32 = if pads >= 1 {
            0
        } else {
            match value_of(d) {
                Some(v) => v,
                None => return None,
            }
        };
        let group: u32 = w * 262144 + x * 4096 + y * 64 + z;
        let ghost all = seq![
            (group as nat / 65536) as u8,
            (group as nat / 256 % 256) as u8,
            (group as nat % 256) as u8,
        ];
        out.push((group / 65536) as u8);
        if pads < 2 {
            out.push((group / 256 % 256) as u8);
        }
        if pads < 1 {
            out.push((group % 256) as u8);
        }
        proof {
            let front = all.take(3 - pads as int);
            assert(quad_bytes(a, b, c, d) == Some(front));
            assert(out@ =~= before + front);
            match base64_bytes(bytes@.skip(i + 4)) {
                Some(rest) => {
                    assert(before + (front + rest) =~= out@ + rest);
                },
                None => {},
            }
        }
        i = i + 4;
    }
    let ghost none: Seq<u8> = seq![];
    assert(bytes@.skip(n as int).len() == 0);
    assert(out@ + none =~= out@);
    Some(out)
}

} // verus!
