//! The write-ahead log: a header, then one length-prefixed, checksummed
//! record per logged batch of page images.

use super::Durability;
use crate::bytes::{
    bytes_equal, from_le, get_le, le_bytes, lemma_from_le_bound, lemma_le_len, lemma_le_roundtrip,
    lemma_pow256_values, put_le,
};
use crate::crc32::{bitwise, crc_of};
use crate::error::{ErrorKind, IoError, IoResult};
use crate::storage::{PageId, PageImage};
use crate::text::{decimal_text, join};
use vstd::prelude::*;
use vstd::slice::{slice_subrange, slice_to_vec};
use vstd::string::StringExecFns;

verus! {

pub const WAL_VERSION: u32 = 1;

pub const WAL_HEADER_LEN: usize = 12;

/// The polynomial of the zlib CRC-32, bit-reversed.
pub const IEEE: u32 = 0xEDB8_8320;

/// What every non-empty log starts with, so that a file from another tool
/// is a clear error rather than a misread: magic, then a format version.
pub open spec fn wal_header() -> Seq<u8> {
    wal_magic() + le_bytes(WAL_VERSION as nat, 4)
}

/// "TRUNKWAL".
pub open spec fn wal_magic() -> Seq<u8> {
    seq![84u8, 82, 85, 78, 75, 87, 65, 76]
}

/// The page images behind a slice of borrowed ones.
pub open spec fn borrowed_images(pages: Seq<(PageId, &[u8])>) -> Seq<(PageId, Seq<u8>)> {
    Seq::new(pages.len(), |i: int| (pages[i].0, pages[i].1@))
}

/// The page images in `pages`.
pub open spec fn images(pages: Seq<PageImage>) -> Seq<(PageId, Seq<u8>)> {
    Seq::new(pages.len(), |i: int| (pages[i].0, pages[i].1@))
}

/// The page entries of a batch: each page's number and bytes.
pub open spec fn entries_bytes(pages: Seq<(PageId, Seq<u8>)>) -> Seq<u8>
    decreases pages.len(),
{
    if pages.len() == 0 {
        seq![]
    } else {
        entries_bytes(pages.drop_last()) + le_bytes(pages.last().0 as nat, 8) + pages.last().1
    }
}

/// A record's body: the page count, then the entries.
pub open spec fn batch_body(pages: Seq<(PageId, Seq<u8>)>) -> Seq<u8> {
    le_bytes(pages.len(), 4) + entries_bytes(pages)
}

/// The check of a record's body.
pub open spec fn body_crc(body: Seq<u8>) -> u32 {
    crc_of(IEEE, body)
}

/// A record: the body's length, its check, the body.
pub open spec fn framed(body: Seq<u8>) -> Seq<u8> {
    le_bytes(body.len(), 4) + le_bytes(body_crc(body) as nat, 4) + body
}

/// The record of one batch.
pub open spec fn record_bytes(pages: Seq<(PageId, Seq<u8>)>) -> Seq<u8> {
    framed(batch_body(pages))
}

/// The records of several batches, in order.
pub open spec fn records_bytes(batches: Seq<Seq<(PageId, Seq<u8>)>>) -> Seq<u8>
    decreases batches.len(),
{
    if batches.len() == 0 {
        seq![]
    } else {
        record_bytes(batches[0]) + records_bytes(batches.skip(1))
    }
}

/// A log that holds `batches`.
pub open spec fn wal_bytes(batches: Seq<Seq<(PageId, Seq<u8>)>>) -> Seq<u8> {
    wal_header() + records_bytes(batches)
}

/// All the images of several batches, in order.
pub open spec fn batches_images(batches: Seq<Seq<(PageId, Seq<u8>)>>) -> Seq<(PageId, Seq<u8>)>
    decreases batches.len(),
{
    if batches.len() == 0 {
        seq![]
    } else {
        batches[0] + batches_images(batches.skip(1))
    }
}

/// A batch that a record can hold: whole pages of `page_len` bytes, few
/// enough for the length prefix.
pub open spec fn writable_batch(page_len: nat, pages: Seq<(PageId, Seq<u8>)>) -> bool {
    &&& forall|i: int| 0 <= i < pages.len() ==> (#[trigger] pages[i]).1.len() == page_len
    &&& 4 + pages.len() * (8 + page_len) <= u32::MAX
}

/// The images in `entries`, `count` of them.
pub open spec fn decode_entries(page_len: nat, entries: Seq<u8>, count: nat) -> Seq<
    (PageId, Seq<u8>),
> {
    Seq::new(
        count,
        |i: int|
            (
                from_le(entries.subrange(i * (8 + page_len), i * (8 + page_len) + 8)) as u64,
                entries.subrange(i * (8 + page_len) + 8, (i + 1) * (8 + page_len)),
            ),
    )
}

/// The images in a record's body; `None` if its length doesn't match its
/// page count.
pub open spec fn decode_body(page_len: nat, body: Seq<u8>) -> Option<Seq<(PageId, Seq<u8>)>> {
    if body.len() < 4 || body.len() - 4 != from_le(body.take(4)) * (8 + page_len) {
        None
    } else {
        Some(decode_entries(page_len, body.skip(4), from_le(body.take(4))))
    }
}

/// The images in every complete record of `bytes`, in order. A torn tail
/// ends them: a final record cut short, or whose check doesn't match. A
/// check that doesn't match before the tail, or a body that matches its
/// check and doesn't decode, is damage (`None`).
pub open spec fn decode_records(page_len: nat, bytes: Seq<u8>) -> Option<Seq<(PageId, Seq<u8>)>>
    decreases bytes.len(),
{
    if bytes.len() < 8 {
        Some(seq![])
    } else {
        let body_len = from_le(bytes.take(4));
        let after = bytes.skip(8);
        if after.len() < body_len {
            Some(seq![])
        } else {
            let body = after.take(body_len as int);
            let rest = after.skip(body_len as int);
            if body_crc(body) != from_le(bytes.subrange(4, 8)) {
                if rest.len() == 0 {
                    Some(seq![])
                } else {
                    None
                }
            } else {
                match (decode_body(page_len, body), decode_records(page_len, rest)) {
                    (Some(first), Some(more)) => Some(first + more),
                    _ => None,
                }
            }
        }
    }
}

/// The images that a recovery restores from a log holding `bytes`; `None`
/// if the log is damaged. A log shorter than its header holds nothing: the
/// header is only ever written together with a record.
pub open spec fn pending_images(page_len: nat, bytes: Seq<u8>) -> Option<Seq<(PageId, Seq<u8>)>> {
    if bytes.len() < WAL_HEADER_LEN {
        Some(seq![])
    } else if bytes.take(WAL_HEADER_LEN as int) != wal_header() {
        None
    } else {
        decode_records(page_len, bytes.skip(WAL_HEADER_LEN as int))
    }
}

// ---------------------------------------------------------------------
// Reading back what was written.

proof fn lemma_entries_len(page_len: nat, pages: Seq<(PageId, Seq<u8>)>)
    requires
        forall|i: int| 0 <= i < pages.len() ==> (#[trigger] pages[i]).1.len() == page_len,
    ensures
        entries_bytes(pages).len() == pages.len() * (8 + page_len),
    decreases pages.len(),
{
    if pages.len() > 0 {
        lemma_entries_len(page_len, pages.drop_last());
        lemma_le_len(pages.last().0 as nat, 8);
        let n = pages.len() as int;
        let e = 8 + page_len as int;
        assert(n * e == (n - 1) * e + e) by (nonlinear_arith);
    }
}

proof fn lemma_entries_decode(page_len: nat, pages: Seq<(PageId, Seq<u8>)>)
    requires
        forall|i: int| 0 <= i < pages.len() ==> (#[trigger] pages[i]).1.len() == page_len,
    ensures
        decode_entries(page_len, entries_bytes(pages), pages.len()) == pages,
    decreases pages.len(),
{
    if pages.len() == 0 {
        assert(decode_entries(page_len, entries_bytes(pages), 0) =~= pages);
    } else {
        let before = pages.drop_last();
        let all = entries_bytes(pages);
        let n = before.len();
        let e = (8 + page_len) as int;
        lemma_entries_decode(page_len, before);
        lemma_entries_len(page_len, before);
        lemma_entries_len(page_len, pages);
        let last = pages.last();
        lemma_pow256_values();
        lemma_le_roundtrip(last.0 as nat, 8);
        assert forall|i: int| 0 <= i < pages.len() implies #[trigger] decode_entries(
            page_len,
            all,
            pages.len(),
        )[i] == pages[i] by {
            assert(i * e >= 0 && (i + 1) * e == i * e + e) by (nonlinear_arith)
                requires
                    i >= 0,
                    e >= 0,
            ;
            if i < n {
                assert((i + 1) * e <= n * e) by (nonlinear_arith)
                    requires
                        i < n,
                        e >= 0,
                ;
                let d = decode_entries(page_len, entries_bytes(before), n);
                assert(d[i] == before[i]);
                assert(all.subrange(i * e, i * e + 8) =~= entries_bytes(before).subrange(
                    i * e,
                    i * e + 8,
                ));
                assert(all.subrange(i * e + 8, (i + 1) * e) =~= entries_bytes(before).subrange(
                    i * e + 8,
                    (i + 1) * e,
                ));
            } else {
                assert(i == n);
                assert(all.subrange(i * e, i * e + 8) =~= le_bytes(last.0 as nat, 8));
                assert(all.subrange(i * e + 8, (i + 1) * e) =~= last.1);
            }
        }
        assert(decode_entries(page_len, all, pages.len()) =~= pages);
    }
}

proof fn lemma_body_decode(page_len: nat, pages: Seq<(PageId, Seq<u8>)>)
    requires
        writable_batch(page_len, pages),
    ensures
        decode_body(page_len, batch_body(pages)) == Some(pages),
        batch_body(pages).len() == 4 + pages.len() * (8 + page_len),
{
    lemma_pow256_values();
    let n = pages.len();
    assert(n <= n * (8 + page_len)) by (nonlinear_arith);
    lemma_le_roundtrip(n, 4);
    lemma_entries_len(page_len, pages);
    lemma_entries_decode(page_len, pages);
    let body = batch_body(pages);
    assert(body.take(4) =~= le_bytes(n, 4));
    assert(body.skip(4) =~= entries_bytes(pages));
}

/// What a frame followed by `rest` splits into.
proof fn lemma_frame_parts(body: Seq<u8>, crc: u32, rest: Seq<u8>)
    requires
        body.len() <= u32::MAX,
    ensures
        ({
            let bytes = le_bytes(body.len(), 4) + le_bytes(crc as nat, 4) + body + rest;
            &&& bytes.len() == 8 + body.len() + rest.len()
            &&& from_le(bytes.take(4)) == body.len()
            &&& from_le(bytes.subrange(4, 8)) == crc
            &&& bytes.skip(8).take(body.len() as int) == body
            &&& bytes.skip(8).skip(body.len() as int) == rest
        }),
{
    lemma_pow256_values();
    lemma_le_roundtrip(body.len(), 4);
    lemma_le_roundtrip(crc as nat, 4);
    let bytes = le_bytes(body.len(), 4) + le_bytes(crc as nat, 4) + body + rest;
    assert(bytes.take(4) =~= le_bytes(body.len(), 4));
    assert(bytes.subrange(4, 8) =~= le_bytes(crc as nat, 4));
    assert(bytes.skip(8).take(body.len() as int) =~= body);
    assert(bytes.skip(8).skip(body.len() as int) =~= rest);
}

/// Records of whole batches come first, whatever follows them.
proof fn lemma_records_then(
    page_len: nat,
    batches: Seq<Seq<(PageId, Seq<u8>)>>,
    tail: Seq<u8>,
)
    requires
        forall|i: int| 0 <= i < batches.len() ==> writable_batch(page_len, #[trigger] batches[i]),
    ensures
        decode_records(page_len, records_bytes(batches) + tail) == (match decode_records(
            page_len,
            tail,
        ) {
            Some(more) => Some(batches_images(batches) + more),
            None => None,
        }),
    decreases batches.len(),
{
    if batches.len() == 0 {
        assert(records_bytes(batches) + tail =~= tail);
        if decode_records(page_len, tail) is Some {
            assert(batches_images(batches) + decode_records(page_len, tail)->Some_0
                =~= decode_records(page_len, tail)->Some_0);
        }
    } else {
        let first = batches[0];
        let others = batches.skip(1);
        lemma_records_then(page_len, others, tail);
        lemma_body_decode(page_len, first);
        let body = batch_body(first);
        let rest = records_bytes(others) + tail;
        lemma_frame_parts(body, body_crc(body), rest);
        let bytes = records_bytes(batches) + tail;
        assert(bytes =~= le_bytes(body.len(), 4) + le_bytes(body_crc(body) as nat, 4) + body
            + rest);
        if decode_records(page_len, tail) is Some {
            let more = decode_records(page_len, tail)->Some_0;
            assert(batches_images(batches) + more =~= first + (batches_images(others) + more));
        }
    }
}

/// A log of whole batches gives back their pages, in the order they were
/// logged.
pub proof fn logged_batches_read_back(page_len: nat, batches: Seq<Seq<(PageId, Seq<u8>)>>)
    requires
        forall|i: int| 0 <= i < batches.len() ==> writable_batch(page_len, #[trigger] batches[i]),
    ensures
        pending_images(page_len, wal_bytes(batches)) == Some(batches_images(batches)),
{
    let none: Seq<(PageId, Seq<u8>)> = seq![];
    lemma_body_decode(page_len, none);
    lemma_le_len(batch_body(none).len(), 4);
    assert(record_bytes(none).take(0) =~= Seq::<u8>::empty());
    torn_tail_is_ignored(page_len, batches, none, seq![]);
    assert(wal_bytes(batches) + Seq::<u8>::empty() =~= wal_bytes(batches));
}

proof fn lemma_header_len()
    ensures
        wal_header().len() == WAL_HEADER_LEN,
{
    lemma_le_len(WAL_VERSION as nat, 4);
}

proof fn lemma_pending_after_header(
    page_len: nat,
    batches: Seq<Seq<(PageId, Seq<u8>)>>,
    tail: Seq<u8>,
)
    requires
        forall|i: int| 0 <= i < batches.len() ==> writable_batch(page_len, #[trigger] batches[i]),
    ensures
        pending_images(page_len, wal_bytes(batches) + tail) == (match decode_records(
            page_len,
            tail,
        ) {
            Some(more) => Some(batches_images(batches) + more),
            None => None,
        }),
{
    lemma_header_len();
    let bytes = wal_bytes(batches) + tail;
    assert(bytes.take(WAL_HEADER_LEN as int) =~= wal_header());
    assert(bytes.skip(WAL_HEADER_LEN as int) =~= records_bytes(batches) + tail);
    lemma_records_then(page_len, batches, tail);
}

/// A crash while a batch is being logged leaves a strict prefix of its
/// record: recovery restores every batch before it and none of its pages.
pub proof fn torn_tail_is_ignored(
    page_len: nat,
    batches: Seq<Seq<(PageId, Seq<u8>)>>,
    torn: Seq<(PageId, Seq<u8>)>,
    tail: Seq<u8>,
)
    requires
        forall|i: int| 0 <= i < batches.len() ==> writable_batch(page_len, #[trigger] batches[i]),
        writable_batch(page_len, torn),
        tail.len() < record_bytes(torn).len(),
        tail == record_bytes(torn).take(tail.len() as int),
    ensures
        pending_images(page_len, wal_bytes(batches) + tail) == Some(batches_images(batches)),
{
    lemma_pending_after_header(page_len, batches, tail);
    let body = batch_body(torn);
    lemma_body_decode(page_len, torn);
    lemma_frame_parts(body, body_crc(body), seq![]);
    assert(record_bytes(torn) + Seq::<u8>::empty() =~= record_bytes(torn));
    if tail.len() >= 8 {
        assert(tail.take(4) =~= record_bytes(torn).take(4));
    }
    assert(decode_records(page_len, tail) == Some(Seq::<(PageId, Seq<u8>)>::empty()));
    assert(batches_images(batches) + Seq::<(PageId, Seq<u8>)>::empty() =~= batches_images(batches));
}

/// A final record of full length whose bytes do not match its check is
/// ignored too: its bytes did not all reach the disk.
pub proof fn tail_with_a_bad_checksum_is_ignored(
    page_len: nat,
    batches: Seq<Seq<(PageId, Seq<u8>)>>,
    body: Seq<u8>,
    crc: u32,
)
    requires
        forall|i: int| 0 <= i < batches.len() ==> writable_batch(page_len, #[trigger] batches[i]),
        body.len() <= u32::MAX,
        crc != body_crc(body),
    ensures
        pending_images(
            page_len,
            wal_bytes(batches) + (le_bytes(body.len(), 4) + le_bytes(crc as nat, 4) + body),
        ) == Some(batches_images(batches)),
{
    let tail = le_bytes(body.len(), 4) + le_bytes(crc as nat, 4) + body;
    lemma_pending_after_header(page_len, batches, tail);
    lemma_frame_parts(body, crc, seq![]);
    assert(tail + Seq::<u8>::empty() =~= tail);
    assert(batches_images(batches) + Seq::<(PageId, Seq<u8>)>::empty() =~= batches_images(batches));
}

/// A crash only ever tears the last record, so a record that does not
/// match its check and has something after it is an error.
pub proof fn checksum_before_the_tail_is_an_error(
    page_len: nat,
    batches: Seq<Seq<(PageId, Seq<u8>)>>,
    body: Seq<u8>,
    crc: u32,
    rest: Seq<u8>,
)
    requires
        forall|i: int| 0 <= i < batches.len() ==> writable_batch(page_len, #[trigger] batches[i]),
        body.len() <= u32::MAX,
        crc != body_crc(body),
        rest.len() > 0,
    ensures
        pending_images(
            page_len,
            wal_bytes(batches) + (le_bytes(body.len(), 4) + le_bytes(crc as nat, 4) + body + rest),
        ) is None,
{
    let tail = le_bytes(body.len(), 4) + le_bytes(crc as nat, 4) + body + rest;
    lemma_pending_after_header(page_len, batches, tail);
    lemma_frame_parts(body, crc, rest);
}

// ---------------------------------------------------------------------
// The code.

/// The header.
pub fn encode_header() -> (header: Vec<u8>)
    ensures
        header@ == wal_header(),
{
    let mut header: Vec<u8> = vec![84u8, 82, 85, 78, 75, 87, 65, 76];
    assert(header@ =~= wal_magic());
    put_le(&mut header, WAL_VERSION as u64, 4);
    header
}

/// The record of one batch. One record per batch is what makes a batch
/// atomic across a crash during `log` itself: recovery either finds the
/// whole record intact and restores every page in it, or finds it torn and
/// restores none.
pub fn encode_record(page_len: usize, pages: &[(PageId, &[u8])]) -> (record: Vec<u8>)
    requires
        writable_batch(page_len as nat, borrowed_images(pages@)),
    ensures
        record@ == record_bytes(borrowed_images(pages@)),
{
    let ghost all = borrowed_images(pages@);
    let n: usize = pages.len();
    let mut body: Vec<u8> = Vec::new();
    put_le(&mut body, n as u64, 4);
    assert(body@ =~= le_bytes(n as nat, 4) + entries_bytes(all.take(0)));
    for i in 0..n
        invariant
            n == pages@.len(),
            all == borrowed_images(pages@),
            body@ == le_bytes(n as nat, 4) + entries_bytes(all.take(i as int)),
    {
        let ghost before = body@;
        put_le(&mut body, pages[i].0, 8);
        body.extend_from_slice(pages[i].1);
        proof {
            let next = all.take(i + 1);
            assert(next.drop_last() =~= all.take(i as int));
            assert(next.last() == all[i as int]);
            assert(body@ =~= le_bytes(n as nat, 4) + entries_bytes(next));
        }
    }
    assert(all.take(n as int) =~= all);
    proof {
        lemma_body_decode(page_len as nat, all);
    }
    let mut record: Vec<u8> = Vec::new();
    put_le(&mut record, body.len() as u64, 4);
    put_le(&mut record, crc32(body.as_slice()) as u64, 4);
    record.extend_from_slice(body.as_slice());
    assert(record@ =~= record_bytes(all));
    record
}

/// The zlib CRC-32, bit by bit. It runs once per batch, so it's nowhere
/// near a bottleneck.
pub fn crc32(bytes: &[u8]) -> (r: u32)
    ensures
        r == body_crc(bytes@),
{
    bitwise(IEEE, bytes)
}

fn read_u32(bytes: &[u8]) -> (n: u32)
    requires
        bytes@.len() >= 4,
    ensures
        n == from_le(bytes@.take(4)),
{
    let four: &[u8] = slice_subrange(bytes, 0, 4);
    proof {
        lemma_pow256_values();
        lemma_from_le_bound(four@);
        assert(four@ =~= bytes@.take(4));
    }
    get_le(four) as u32
}

fn damaged(message: &str) -> (e: IoError)
    ensures
        e.kind == ErrorKind::InvalidData,
        e.message@ == message@,
{
    IoError::new(ErrorKind::InvalidData, String::from_str(message))
}

/// Reads every complete batch record in `bytes` and returns their page
/// images, flattened in log order: restoring them in that order leaves
/// each page at its latest logged state. Stops, without an error, at a
/// torn tail.
pub fn decode_pending(page_len: usize, bytes: &[u8]) -> (r: IoResult<Vec<PageImage>>)
    requires
        page_len <= usize::MAX - 8,
    ensures
        match r {
            Ok(pages) => pending_images(page_len as nat, bytes@) == Some(images(pages@)),
            Err(e) => pending_images(page_len as nat, bytes@) is None && e.kind
                == ErrorKind::InvalidData,
        },
{
    if bytes.len() < WAL_HEADER_LEN {
        let none: Vec<PageImage> = Vec::new();
        assert(images(none@) =~= seq![]);
        return Ok(none);
    }
    let header = encode_header();
    proof {
        lemma_header_len();
        assert(bytes@.take(12).take(8) =~= bytes@.take(8));
        assert(bytes@.take(12).skip(8) =~= bytes@.subrange(8, 12));
        assert(wal_header().take(8) =~= wal_magic());
        assert(wal_header().skip(8) =~= le_bytes(WAL_VERSION as nat, 4));
    }
    let magic: &[u8] = slice_subrange(bytes, 0, 8);
    assert(magic@ =~= bytes@.take(8));
    if !bytes_equal(magic, slice_subrange(header.as_slice(), 0, 8)) {
        return Err(
            damaged(
                "not a trunkdb page-image WAL (bad magic) — possibly one written by an older trunkdb",
            ),
        );
    }
    let version_bytes: &[u8] = slice_subrange(bytes, 8, 12);
    let version: u32 = read_u32(version_bytes);
    proof {
        assert(version_bytes@.take(4) =~= version_bytes@);
        lemma_pow256_values();
        lemma_le_roundtrip(WAL_VERSION as nat, 4);
        crate::bytes::lemma_le_of_from_le(version_bytes@);
    }
    if version != WAL_VERSION {
        let found = decimal_text(version as u64);
        let expected = decimal_text(WAL_VERSION as u64);
        let message = join(
            &["unsupported WAL version ", found.as_str(), ", this build expects ", expected.as_str()],
        );
        return Err(damaged(message.as_str()));
    }
    assert(bytes@.take(12) =~= wal_header()) by {
        assert(bytes@.take(12) =~= bytes@.take(8) + bytes@.subrange(8, 12));
    }
    let mut pages: Vec<PageImage> = Vec::new();
    let mut rest: &[u8] = slice_subrange(bytes, WAL_HEADER_LEN, bytes.len());
    assert(rest@ =~= bytes@.skip(12));
    assert(images(pages@) =~= seq![]);
    let ghost whole = decode_records(page_len as nat, rest@);
    assert(whole == (match decode_records(page_len as nat, rest@) {
        Some(more) => Some(images(pages@) + more),
        None => None,
    })) by {
        if whole is Some {
            assert(images(pages@) + whole->Some_0 =~= whole->Some_0);
        }
    }
    while rest.len() >= 8
        invariant
            page_len <= usize::MAX - 8,
            whole == pending_images(page_len as nat, bytes@),
            whole == (match decode_records(page_len as nat, rest@) {
                Some(more) => Some(images(pages@) + more),
                None => None,
            }),
        ensures
            whole == Some(images(pages@)),
        decreases rest@.len(),
    {
        let body_len: usize = read_u32(rest) as usize;
        let check: &[u8] = slice_subrange(rest, 4, 8);
        let checksum: u32 = read_u32(check);
        assert(check@.take(4) =~= rest@.subrange(4, 8));
        let after: &[u8] = slice_subrange(rest, 8, rest.len());
        assert(after@ =~= rest@.skip(8));
        if after.len() < body_len {
            assert(images(pages@) + Seq::<(PageId, Seq<u8>)>::empty() =~= images(pages@));
            break ;
        }
        let (body, following) = after.split_at(body_len);
        assert(body@ =~= after@.take(body_len as int));
        assert(following@ =~= after@.skip(body_len as int));
        if crc32(body) != checksum {
            if following.len() == 0 {
                assert(images(pages@) + Seq::<(PageId, Seq<u8>)>::empty() =~= images(pages@));
                break ;
            }
            return Err(damaged("WAL record checksum mismatch before the tail"));
        }
        let ghost before = images(pages@);
        match decode_batch(page_len, body, &mut pages) {
            Ok(()) => {},
            Err(e) => {
                return Err(e);
            },
        }
        proof {
            let first = decode_body(page_len as nat, body@)->Some_0;
            match decode_records(page_len as nat, following@) {
                Some(more) => {
                    assert(before + (first + more) =~= (before + first) + more);
                },
                None => {},
            }
        }
        rest = following;
    }
    Ok(pages)
}

/// Appends the images in a record's body to `pages`.
fn decode_batch(page_len: usize, body: &[u8], pages: &mut Vec<PageImage>) -> (r: IoResult<()>)
    requires
        page_len <= usize::MAX - 8,
    ensures
        match r {
            Ok(()) => decode_body(page_len as nat, body@) matches Some(found) && images(
                final(pages)@,
            ) == images(old(pages)@) + found,
            Err(e) => decode_body(page_len as nat, body@) is None && e.kind
                == ErrorKind::InvalidData,
        },
{
    if body.len() < 4 {
        return Err(damaged("WAL batch record too short for its page count"));
    }
    let count: usize = read_u32(body) as usize;
    let entries: &[u8] = slice_subrange(body, 4, body.len());
    assert(entries@ =~= body@.skip(4));
    let entry_len: usize = 8 + page_len;
    let total: usize = entries.len();
    let expected: Option<usize> = count.checked_mul(entry_len);
    if expected.is_none() || expected.unwrap() != total {
        return Err(damaged("WAL batch record's length doesn't match its page count"));
    }
    let ghost found = decode_entries(page_len as nat, entries@, count as nat);
    let ghost start = images(pages@);
    assert(start + found.take(0) =~= start);
    for i in 0..count
        invariant
            entry_len == 8 + page_len,
            total == entries@.len() == count * entry_len,
            found == decode_entries(page_len as nat, entries@, count as nat),
            images(pages@) == start + found.take(i as int),
    {
        proof {
            let e = entry_len as int;
            assert(0 <= i * e && i * e + e == (i + 1) * e && (i + 1) * e <= count * e)
                by (nonlinear_arith)
                requires
                    0 <= i < count,
                    e >= 0,
            ;
        }
        let at: usize = i * entry_len;
        let entry: &[u8] = slice_subrange(entries, at, at + entry_len);
        let id: u64 = get_le(slice_subrange(entry, 0, 8));
        let page: Vec<u8> = slice_to_vec(slice_subrange(entry, 8, entry_len));
        let ghost before = pages@;
        pages.push((id, page));
        proof {
            assert(entry@.subrange(0, 8) =~= entries@.subrange(at as int, at + 8));
            assert(page@ =~= entries@.subrange(at + 8, at + entry_len));
            assert(found.take(i + 1) =~= found.take(i as int).push(found[i as int]));
            assert(images(pages@) =~= images(before).push((id, page@)));
            assert(images(pages@) =~= start + found.take(i + 1));
        }
    }
    assert(found.take(count as int) =~= found);
    Ok(())
}

/// The log's contents. `log` adds each batch as one record; `checkpoint`
/// empties it once the batches' pages are durably in the main file.
///
/// If the process dies after `log` returned, the log holds every page the
/// batch changed, and restoring them leaves the complete post-batch state,
/// whether the crash hit before, during, or after the batch's own
/// write-back. If it dies during `log`, the record is torn and recovery
/// ignores it; the main file was never touched, so the result is the
/// complete pre-batch state.
pub struct WalDurability {
    pub page_len: usize,
    pub bytes: Vec<u8>,
}

impl WalDurability {
    /// A log holding `bytes`, and the page images of every batch still
    /// pending in it.
    pub fn open(page_len: usize, bytes: Vec<u8>) -> (r: IoResult<(WalDurability, Vec<PageImage>)>)
        requires
            page_len <= usize::MAX - 8,
        ensures
            match r {
                Ok((wal, pages)) => wal.page_len == page_len && wal.bytes@ == bytes@
                    && pending_images(page_len as nat, bytes@) == Some(images(pages@)),
                Err(e) => pending_images(page_len as nat, bytes@) is None && e.kind
                    == ErrorKind::InvalidData,
            },
    {
        match decode_pending(page_len, bytes.as_slice()) {
            Ok(pages) => Ok((WalDurability { page_len, bytes }, pages)),
            Err(e) => Err(e),
        }
    }

    /// What `log` appends to a log that is empty, or not, for `pages`.
    pub fn log_bytes(&self, pages: &[(PageId, &[u8])]) -> (added: Vec<u8>)
        requires
            self.can_log(borrowed_images(pages@)),
        ensures
            added@ == (if pages@.len() == 0 {
                Seq::<u8>::empty()
            } else if self.bytes@.len() == 0 {
                wal_header() + record_bytes(borrowed_images(pages@))
            } else {
                record_bytes(borrowed_images(pages@))
            }),
    {
        let mut added: Vec<u8> = Vec::new();
        if pages.len() > 0 {
            if self.bytes.len() == 0 {
                added = encode_header();
            }
            let record = encode_record(self.page_len, pages);
            added.extend_from_slice(record.as_slice());
            proof {
                if self.bytes@.len() == 0 {
                    assert(added@ =~= wal_header() + record@);
                } else {
                    assert(added@ =~= record@);
                }
            }
        }
        added
    }
}

impl Durability for WalDurability {
    open spec fn can_log(&self, pages: Seq<(PageId, Seq<u8>)>) -> bool {
        writable_batch(self.page_len as nat, pages)
    }

    open spec fn pending(&self) -> Option<Seq<(PageId, Seq<u8>)>> {
        pending_images(self.page_len as nat, self.bytes@)
    }

    fn log(&mut self, pages: &[(PageId, &[u8])]) -> (r: IoResult<()>)
        ensures
            r is Ok,
            final(self).page_len == old(self).page_len,
            final(self).bytes@ == old(self).bytes@ + (if pages@.len() == 0 {
                Seq::<u8>::empty()
            } else if old(self).bytes@.len() == 0 {
                wal_header() + record_bytes(borrowed_images(pages@))
            } else {
                record_bytes(borrowed_images(pages@))
            }),
    {
        let added = self.log_bytes(pages);
        self.bytes.extend_from_slice(added.as_slice());
        Ok(())
    }

    fn checkpoint(&mut self) -> (r: IoResult<()>)
        ensures
            r is Ok,
            final(self).page_len == old(self).page_len,
            final(self).bytes@ == Seq::<u8>::empty(),
    {
        self.bytes.clear();
        Ok(())
    }
}

} // verus!
