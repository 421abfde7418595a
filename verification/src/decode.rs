//! Reading bytes that came from the file or the log. A length or count in
//! them may be wrong: a checksum proves the bytes are the ones written, not
//! that what wrote them was right. So running out of bytes is an
//! `InvalidData` error here, never a panic in the host application, and a
//! count never sizes an allocation before the bytes behind it are known to
//! be there.

use crate::bytes::{from_le, get_le, lemma_from_le_bound, lemma_pow256_values};
use crate::error::{ErrorKind, IoError, IoResult};
use crate::text::{decimal, decimal_text, join, joined};
use vstd::prelude::*;

verus! {

/// The text of a `corrupt` error about `what`.
pub open spec fn corrupt_text(what: Seq<char>) -> Seq<char> {
    what + " — file may be corrupt"@
}

/// An `InvalidData` error: `what` is damaged.
pub fn corrupt(what: &str) -> (e: IoError)
    ensures
        e.kind == ErrorKind::InvalidData,
        e.message@ == corrupt_text(what@),
{
    let message = join(&[what, " — file may be corrupt"]);
    proof {
        reveal_with_fuel(joined, 3);
        assert(message@ =~= corrupt_text(what@));
    }
    IoError::new(ErrorKind::InvalidData, message)
}

/// What `take` says is wrong when `what` needs `n` bytes and `left` are
/// left.
pub open spec fn short_text(what: Seq<char>, n: nat, left: nat) -> Seq<char> {
    what + " needs "@ + decimal(n) + " bytes, "@ + decimal(left) + " left"@
}

/// The first `n` bytes of `bytes`, which moves past them; an error naming
/// `what` if there are fewer.
pub fn take<'a>(bytes: &mut &'a [u8], n: usize, what: &str) -> (r: IoResult<&'a [u8]>)
    ensures
        r is Ok <==> n <= old(bytes)@.len(),
        r matches Ok(taken) ==> taken@ == old(bytes)@.take(n as int) && final(bytes)@
            == old(bytes)@.skip(n as int),
        r matches Err(e) ==> *final(bytes) == *old(bytes) && e.kind == ErrorKind::InvalidData
            && e.message@ == corrupt_text(short_text(what@, n as nat, old(bytes)@.len())),
{
    let all: &'a [u8] = *bytes;
    if all.len() < n {
        let needed = decimal_text(n as u64);
        let left = decimal_text(all.len() as u64);
        let message = join(
            &[what, " needs ", needed.as_str(), " bytes, ", left.as_str(), " left"],
        );
        proof {
            reveal_with_fuel(joined, 7);
            assert(message@ =~= short_text(what@, n as nat, all@.len()));
        }
        return Err(corrupt(message.as_str()));
    }
    let (taken, rest) = all.split_at(n);
    *bytes = rest;
    Ok(taken)
}

/// `take` of one byte.
pub fn take_u8(bytes: &mut &[u8], what: &str) -> (r: IoResult<u8>)
    ensures
        r is Ok <==> 1 <= old(bytes)@.len(),
        r matches Ok(b) ==> b == old(bytes)@[0] && final(bytes)@ == old(bytes)@.skip(1),
        r matches Err(e) ==> *final(bytes) == *old(bytes) && e.kind == ErrorKind::InvalidData
            && e.message@ == corrupt_text(short_text(what@, 1, old(bytes)@.len())),
{
    match take(bytes, 1, what) {
        Ok(taken) => Ok(taken[0]),
        Err(e) => Err(e),
    }
}

/// `take` of a `u32`, least significant byte first.
pub fn take_u32(bytes: &mut &[u8], what: &str) -> (r: IoResult<u32>)
    ensures
        r is Ok <==> 4 <= old(bytes)@.len(),
        r matches Ok(n) ==> n == from_le(old(bytes)@.take(4)) && final(bytes)@
            == old(bytes)@.skip(4),
        r matches Err(e) ==> *final(bytes) == *old(bytes) && e.kind == ErrorKind::InvalidData
            && e.message@ == corrupt_text(short_text(what@, 4, old(bytes)@.len())),
{
    match take(bytes, 4, what) {
        Ok(taken) => {
            proof {
                lemma_from_le_bound(taken@);
                lemma_pow256_values();
            }
            Ok(get_le(taken) as u32)
        },
        Err(e) => Err(e),
    }
}

/// `take` of a `u64`, least significant byte first.
pub fn take_u64(bytes: &mut &[u8], what: &str) -> (r: IoResult<u64>)
    ensures
        r is Ok <==> 8 <= old(bytes)@.len(),
        r matches Ok(n) ==> n == from_le(old(bytes)@.take(8)) && final(bytes)@
            == old(bytes)@.skip(8),
        r matches Err(e) ==> *final(bytes) == *old(bytes) && e.kind == ErrorKind::InvalidData
            && e.message@ == corrupt_text(short_text(what@, 8, old(bytes)@.len())),
{
    match take(bytes, 8, what) {
        Ok(taken) => Ok(get_le(taken)),
        Err(e) => Err(e),
    }
}

} // verus!
