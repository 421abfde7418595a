//! Byte strings, and the texts that stand for bytes and numbers.

use crate::base64::{base64_bytes, base64_of, digit_code, digit_value, quad_of, PAD};
use crate::id::{hex_char, id_text, nibble};
use crate::order::{bytes_lt, lemma_lt_asymmetric};
use crate::text::{decimal, digit_char};
use vstd::prelude::*;

verus! {

/// The first byte in which two byte strings differ decides which is less; one
/// that begins the other is less.
pub proof fn the_first_byte_that_differs_decides(a: Seq<u8>, b: Seq<u8>, k: int)
    requires
        0 <= k <= a.len(),
        k < b.len(),
        forall|j: int| 0 <= j < k ==> a[j] == b[j],
        k < a.len() ==> a[k] < b[k],
    ensures
        bytes_lt(a, b),
        !bytes_lt(b, a),
    decreases k,
{
    if k > 0 {
        assert(a[0] == b[0]);
        assert forall|j: int| 0 <= j < k - 1 implies a.skip(1)[j] == b.skip(1)[j] by {
            assert(a[j + 1] == b[j + 1]);
        }
        the_first_byte_that_differs_decides(a.skip(1), b.skip(1), k - 1);
    }
    lemma_lt_asymmetric(a, b);
}

// ---------------------------------------------------------------------
// Numbers in decimal.

/// The number that decimal digits stand for.
pub open spec fn number_of(digits: Seq<char>) -> nat
    decreases digits.len(),
{
    if digits.len() == 0 {
        0
    } else {
        number_of(digits.drop_last()) * 10 + (digits.last() as nat - '0' as nat) as nat
    }
}

/// A number in decimal is made of digits that stand for it, without a zero in
/// front.
pub proof fn decimal_digits_stand_for_the_number(n: nat)
    ensures
        number_of(decimal(n)) == n,
        forall|i: int| 0 <= i < decimal(n).len() ==> '0' <= #[trigger] decimal(n)[i] <= '9',
        decimal(n).len() > 0,
        n > 0 ==> decimal(n)[0] != '0',
    decreases n,
{
    lemma_digit(n % 10);
    if n < 10 {
        lemma_digit(n);
        assert(decimal(n).drop_last() =~= Seq::<char>::empty());
        assert(number_of(decimal(n).drop_last()) == 0);
    } else {
        decimal_digits_stand_for_the_number(n / 10);
        assert(decimal(n).drop_last() =~= decimal(n / 10));
        assert forall|i: int| 0 <= i < decimal(n).len() implies '0' <= #[trigger] decimal(n)[i]
            <= '9' by {
            if i < decimal(n / 10).len() {
                assert(decimal(n)[i] == decimal(n / 10)[i]);
            }
        }
        assert(decimal(n)[0] == decimal(n / 10)[0]);
    }
}

proof fn lemma_digit(d: nat)
    requires
        d < 10,
    ensures
        '0' <= digit_char(d) <= '9',
        digit_char(d) as nat - '0' as nat == d,
        d > 0 ==> digit_char(d) != '0',
{
}

// ---------------------------------------------------------------------
// Base64.

/// The digits of base64, in order.
pub open spec fn base64_digits() -> Seq<char> {
    "ABCDEFGHIJKLMNOPQRSTUVWXYZabcdefghijklmnopqrstuvwxyz0123456789+/"@
}

/// A base64 digit has the code of its character, and no other code is a digit.
pub proof fn base64_has_its_digits(d: nat, c: u8)
    ensures
        d < 64 ==> digit_code(d) as u32 == base64_digits()[d as int] as u32,
        digit_value(c) matches Some(n) ==> n < 64 && base64_digits()[n as int] as u32 == c as u32,
        digit_value(c) is None ==> forall|n: int|
            0 <= n < 64 ==> #[trigger] base64_digits()[n] as u32 != c as u32,
{
    reveal_strlit("ABCDEFGHIJKLMNOPQRSTUVWXYZabcdefghijklmnopqrstuvwxyz0123456789+/");
    reveal(digit_code);
    reveal(digit_value);
}

/// Base64 is written three bytes at a time, each three as four digits.
pub proof fn base64_goes_three_bytes_at_a_time(a: Seq<u8>, b: Seq<u8>)
    requires
        a.len() % 3 == 0,
    ensures
        base64_of(a + b) == base64_of(a) + base64_of(b),
    decreases a.len(),
{
    if a.len() == 0 {
        assert(a + b =~= b);
        assert(base64_of(a) + base64_of(b) =~= base64_of(b));
    } else {
        let rest = a.skip(3);
        base64_goes_three_bytes_at_a_time(rest, b);
        assert((a + b).skip(3) =~= rest + b);
        let quad = quad_of(a[0], a[1], a[2], a.len());
        assert(quad =~= quad_of(a[0], a[1], a[2], (a + b).len()));
        if rest.len() == 0 {
            assert(base64_of(rest) =~= Seq::<u8>::empty());
        }
        if (a + b).len() <= 3 {
            assert(rest + b =~= Seq::<u8>::empty());
            assert(b =~= Seq::<u8>::empty());
            assert(base64_of(b) =~= Seq::<u8>::empty());
        }
        assert(base64_of(a) =~= quad + base64_of(rest));
        assert(base64_of(a + b) =~= quad + base64_of(rest + b));
    }
}

/// What is read as base64 has digits, four at a time, the last two of which may
/// be padding, and stands for three bytes per four digits.
pub proof fn base64_is_read_four_digits_at_a_time(text: Seq<u8>)
    requires
        base64_bytes(text) is Some,
    ensures
        text.len() % 4 == 0,
        forall|i: int| 0 <= i < text.len() - 2 ==> digit_value(#[trigger] text[i]) is Some,
        forall|i: int|
            0 <= i < text.len() ==> digit_value(#[trigger] text[i]) is Some || text[i] == PAD,
    decreases text.len(),
{
    if text.len() > 0 {
        let rest = text.skip(4);
        base64_is_read_four_digits_at_a_time(rest);
        assert forall|i: int| 0 <= i < text.len() - 2 implies digit_value(
            #[trigger] text[i],
        ) is Some by {
            if i >= 4 {
                assert(rest[i - 4] == text[i]);
            }
        }
        assert forall|i: int| 0 <= i < text.len() implies digit_value(#[trigger] text[i]) is Some
            || text[i] == PAD by {
            if i >= 4 {
                assert(rest[i - 4] == text[i]);
            }
        }
    }
}

// ---------------------------------------------------------------------
// Ids.

/// The hexadecimal digits, in order.
pub open spec fn hex_digits() -> Seq<char> {
    "0123456789abcdef"@
}

/// An id's text is its bytes in order, each as two hexadecimal digits, the higher
/// one first, with hyphens behind bytes 4, 6, 8 and 10.
pub proof fn an_id_is_written_byte_by_byte(bytes: Seq<u8>, k: int)
    requires
        bytes.len() == 16,
        0 <= k < 16,
    ensures
        id_text(bytes).len() == 36,
        ({
            let at = 2 * k + if k < 4 {
                0int
            } else if k < 6 {
                1
            } else if k < 8 {
                2
            } else if k < 10 {
                3
            } else {
                4
            };
            &&& id_text(bytes)[at] == hex_digits()[(bytes[k] / 16) as int]
            &&& id_text(bytes)[at + 1] == hex_digits()[(bytes[k] % 16) as int]
        }),
        id_text(bytes)[8] == '-' && id_text(bytes)[13] == '-' && id_text(bytes)[18] == '-'
            && id_text(bytes)[23] == '-',
{
    reveal_strlit("0123456789abcdef");
    assert(nibble(bytes, 2 * k) == bytes[k] / 16);
    assert(nibble(bytes, 2 * k + 1) == bytes[k] % 16);
    lemma_hex((bytes[k] / 16) as nat);
    lemma_hex((bytes[k] % 16) as nat);
}

proof fn lemma_hex(n: nat)
    requires
        n < 16,
    ensures
        hex_char(n) == hex_digits()[n as int],
{
    reveal_strlit("0123456789abcdef");
}

} // verus!
