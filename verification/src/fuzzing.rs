//! Bytes as a database file or a write-ahead log.
//!
//! Every page ends with a checksum and every log record carries one, so bytes
//! that a fuzzer makes up would almost never get past them, and it would only
//! ever test the checksums. These functions seal the fuzzer's bytes with valid
//! ones, so what's behind the checksums gets tested: everything that decodes a
//! page, a cell or a record.

use crate::bytes::{le_bytes, put_le};
use crate::crc32::{crc32c, Crc32};
use crate::durability::{
    borrowed_images, encode_header, encode_record, images, record_bytes, wal_header, writable_batch,
};
use crate::storage::{PageId, PAGE_SIZE, USABLE_PAGE_SIZE};
use vstd::prelude::*;

verus! {

broadcast use vstd::slice::group_slice_axioms;

/// `n` zero bytes.
pub open spec fn padding(n: int) -> Seq<u8> {
    Seq::new(n as nat, |i: int| 0u8)
}

/// The checksum of a page: its number first, so that a page in another one's
/// place is found out.
pub open spec fn checksum_bytes(id: nat, page: Seq<u8>) -> Seq<u8> {
    le_bytes(crc32c(le_bytes(id, 8) + page) as nat, 4)
}

/// A page's checksum, as the file has it.
pub fn checksum(id: PageId, page: &[u8]) -> (r: Vec<u8>)
    ensures
        r@ == checksum_bytes(id as nat, page@),
        r@.len() == 4,
{
    let mut number: Vec<u8> = Vec::new();
    put_le(&mut number, id, 8);
    assert(number@ =~= le_bytes(id as nat, 8));
    let mut crc = Crc32::new();
    crc.update(number.as_slice());
    crc.update(page);
    assert(Seq::<u8>::empty() + number@ + page@ =~= le_bytes(id as nat, 8) + page@);
    let value: u32 = crc.finish();
    let mut bytes: Vec<u8> = Vec::new();
    put_le(&mut bytes, value as u64, 4);
    proof {
        assert(bytes@ =~= le_bytes(value as nat, 4));
        crate::bytes::lemma_le_len(value as nat, 4);
    }
    bytes
}

/// The first piece of `pages`, padded to a page.
pub open spec fn first_piece(pages: Seq<u8>) -> Seq<u8> {
    if pages.len() < USABLE_PAGE_SIZE {
        pages + padding(USABLE_PAGE_SIZE - pages.len())
    } else {
        pages.take(USABLE_PAGE_SIZE as int)
    }
}

/// What follows the first piece.
pub open spec fn after_piece(pages: Seq<u8>, n: int) -> Seq<u8> {
    if pages.len() < n {
        Seq::empty()
    } else {
        pages.skip(n)
    }
}

/// The file made of `pages`, the first of them number `id`.
pub open spec fn sealed(pages: Seq<u8>, id: nat) -> Seq<u8>
    decreases pages.len(),
{
    if pages.len() == 0 {
        Seq::empty()
    } else {
        first_piece(pages) + checksum_bytes(id, first_piece(pages)) + sealed(
            after_piece(pages, USABLE_PAGE_SIZE as int),
            id + 1,
        )
    }
}

/// A file's pages without their checksums.
pub open spec fn unsealed(file: Seq<u8>) -> Seq<u8>
    decreases file.len(),
{
    if file.len() == 0 {
        Seq::empty()
    } else {
        (if file.len() < USABLE_PAGE_SIZE {
            file
        } else {
            file.take(USABLE_PAGE_SIZE as int)
        }) + unsealed(after_piece(file, PAGE_SIZE as int))
    }
}

/// How many zeros make `pages` whole pages.
pub open spec fn missing(pages: Seq<u8>) -> int {
    (USABLE_PAGE_SIZE - pages.len() as int % USABLE_PAGE_SIZE as int) % USABLE_PAGE_SIZE as int
}

/// A sealed file unsealed gives back the pages, the last one padded with
/// zeros.
pub proof fn unseal_undoes_seal(pages: Seq<u8>, id: nat)
    ensures
        unsealed(sealed(pages, id)) == pages + padding(missing(pages)),
    decreases pages.len(),
{
    if pages.len() == 0 {
        assert(missing(pages) == 0);
        assert(pages + padding(0) =~= unsealed(sealed(pages, id)));
    } else {
        let piece = first_piece(pages);
        let rest = after_piece(pages, USABLE_PAGE_SIZE as int);
        let file = sealed(pages, id);
        unseal_undoes_seal(rest, id + 1);
        crate::bytes::lemma_le_len(crc32c(le_bytes(id, 8) + piece) as nat, 4);
        assert(piece.len() == USABLE_PAGE_SIZE);
        assert(file.take(USABLE_PAGE_SIZE as int) =~= piece);
        assert(after_piece(file, PAGE_SIZE as int) =~= sealed(rest, id + 1));
        if pages.len() < USABLE_PAGE_SIZE {
            assert(rest =~= Seq::empty());
            assert(missing(rest) == 0);
            assert(pages.len() as int % USABLE_PAGE_SIZE as int == pages.len());
            assert(missing(pages) == USABLE_PAGE_SIZE - pages.len());
            assert(piece + (rest + padding(0)) =~= pages + padding(missing(pages)));
        } else {
            assert(missing(rest) == missing(pages)) by {
                vstd::arithmetic::div_mod::lemma_mod_sub_multiples_vanish(
                    pages.len() as int,
                    USABLE_PAGE_SIZE as int,
                );
            }
            assert(piece + (rest + padding(missing(rest))) =~= pages + padding(missing(pages)));
        }
    }
}

/// A database file made of `pages`, cut into `USABLE_PAGE_SIZE` pieces, each
/// followed by its checksum. A last piece that is shorter is padded with
/// zeros.
pub fn seal(pages: &[u8]) -> (r: Vec<u8>)
    ensures
        r@ == sealed(pages@, 0),
{
    let mut file: Vec<u8> = Vec::new();
    let n: usize = pages.len();
    let mut at: usize = 0;
    let mut id: PageId = 0;
    assert(pages@.skip(0) =~= pages@);
    while at < n
        invariant
            n == pages@.len(),
            at <= n,
            id <= at,
            file@ + sealed(pages@.skip(at as int), id as nat) == sealed(pages@, 0),
        decreases n - at,
    {
        let ghost rest = pages@.skip(at as int);
        let ghost before = file@;
        let take: usize = if n - at < USABLE_PAGE_SIZE {
            n - at
        } else {
            USABLE_PAGE_SIZE
        };
        let mut page: Vec<u8> = Vec::new();
        page.extend_from_slice(vstd::slice::slice_subrange(pages, at, at + take));
        while page.len() < USABLE_PAGE_SIZE
            invariant
                take <= page@.len() <= USABLE_PAGE_SIZE,
                at + take <= n == pages@.len(),
                page@ == pages@.subrange(at as int, at + take) + padding(page@.len() - take),
            decreases USABLE_PAGE_SIZE - page@.len(),
        {
            page.push(0);
            assert(page@ =~= pages@.subrange(at as int, at + take) + padding(page@.len() - take));
        }
        proof {
            assert(page@ =~= first_piece(rest));
            assert(after_piece(rest, USABLE_PAGE_SIZE as int) =~= pages@.skip(at + take));
        }
        let mut sum = checksum(id, page.as_slice());
        file.append(&mut page);
        file.append(&mut sum);
        proof {
            assert(file@ =~= before + first_piece(rest) + checksum_bytes(
                id as nat,
                first_piece(rest),
            ));
            assert(file@ + sealed(pages@.skip(at + take), (id + 1) as nat) =~= before + sealed(
                rest,
                id as nat,
            ));
        }
        at += take;
        id += 1;
    }
    assert(file@ + sealed(pages@.skip(at as int), id as nat) =~= file@);
    file
}

/// A database file's pages without their checksums: `seal` undone.
pub fn unseal(file: &[u8]) -> (r: Vec<u8>)
    ensures
        r@ == unsealed(file@),
{
    let mut pages: Vec<u8> = Vec::new();
    let n: usize = file.len();
    let mut at: usize = 0;
    assert(file@.skip(0) =~= file@);
    while at < n
        invariant
            n == file@.len(),
            at <= n,
            pages@ + unsealed(file@.skip(at as int)) == unsealed(file@),
        decreases n - at,
    {
        let ghost rest = file@.skip(at as int);
        let ghost before = pages@;
        let keep: usize = if n - at < USABLE_PAGE_SIZE {
            n - at
        } else {
            USABLE_PAGE_SIZE
        };
        let skip: usize = if n - at < PAGE_SIZE {
            n - at
        } else {
            PAGE_SIZE
        };
        pages.extend_from_slice(vstd::slice::slice_subrange(file, at, at + keep));
        proof {
            assert(after_piece(rest, PAGE_SIZE as int) =~= file@.skip(at + skip));
            assert(pages@ =~= before + (if rest.len() < USABLE_PAGE_SIZE {
                rest
            } else {
                rest.take(USABLE_PAGE_SIZE as int)
            }));
            assert(pages@ + unsealed(file@.skip(at + skip)) =~= before + unsealed(rest));
        }
        at += skip;
    }
    assert(pages@ + unsealed(file@.skip(at as int)) =~= pages@);
    pages
}

/// A log holding one valid record of `pages`, each `(id, bytes)` with
/// `USABLE_PAGE_SIZE` bytes: what a commit of them would log.
pub fn wal(pages: &[(PageId, Vec<u8>)]) -> (r: Vec<u8>)
    requires
        writable_batch(USABLE_PAGE_SIZE as nat, images(pages@)),
    ensures
        r@ == wal_header() + record_bytes(images(pages@)),
{
    let n: usize = pages.len();
    let mut borrowed: Vec<(PageId, &[u8])> = Vec::new();
    for i in 0..n
        invariant
            n == pages@.len(),
            borrowed@.len() == i,
            forall|j: int|
                0 <= j < i ==> (#[trigger] borrowed@[j]).0 == pages@[j].0 && borrowed@[j].1@
                    == pages@[j].1@,
    {
        borrowed.push((pages[i].0, pages[i].1.as_slice()));
    }
    assert(borrowed_images(borrowed@) =~= images(pages@));
    let mut file = encode_header();
    let mut record = encode_record(USABLE_PAGE_SIZE, borrowed.as_slice());
    file.append(&mut record);
    file
}

// ---------------------------------------------------------------------
// Edits.

/// The page that edit `k` is in.
pub open spec fn edit_page(edits: Seq<u8>, k: int, count: int) -> int {
    edits[4 * k] as int % count
}

/// The byte that edit `k` sets.
pub open spec fn edit_at(edits: Seq<u8>, k: int, count: int) -> int {
    edit_page(edits, k, count) * USABLE_PAGE_SIZE + (edits[4 * k + 1] + edits[4 * k + 2] * 256)
        % USABLE_PAGE_SIZE as int
}

/// `pages` after the first `n` edits.
pub open spec fn edited(pages: Seq<u8>, edits: Seq<u8>, n: nat) -> Seq<u8>
    decreases n,
{
    if n == 0 {
        pages
    } else {
        edited(pages, edits, (n - 1) as nat).update(
            edit_at(edits, n - 1, pages.len() as int / USABLE_PAGE_SIZE as int),
            edits[4 * (n - 1) + 3],
        )
    }
}

/// The pages that the first `n` edits change, in order, each once.
pub open spec fn edited_pages(edits: Seq<u8>, count: int, n: nat) -> Seq<int>
    decreases n,
{
    if n == 0 {
        Seq::empty()
    } else {
        let before = edited_pages(edits, count, (n - 1) as nat);
        let page = edit_page(edits, n - 1, count);
        if before.contains(page) {
            before
        } else {
            before.push(page)
        }
    }
}

/// The numbers in a list of them.
pub open spec fn as_ints(list: Seq<usize>) -> Seq<int> {
    Seq::new(list.len(), |i: int| list[i] as int)
}

/// Whether a page is in the list.
fn is_listed(list: &Vec<usize>, page: usize) -> (r: bool)
    ensures
        r == as_ints(list@).contains(page as int),
{
    let n: usize = list.len();
    for i in 0..n
        invariant
            n == list@.len(),
            forall|j: int| 0 <= j < i ==> list@[j] != page,
    {
        if list[i] == page {
            assert(as_ints(list@)[i as int] == page);
            return true;
        }
    }
    false
}

/// Applies `edits` to `pages` (without checksums): each 4 bytes are
/// `[page][offset, u16][value]`, the page and offset wrapped into range.
/// Returns which pages changed, in order, each once.
pub fn apply_edits(pages: &mut Vec<u8>, edits: &[u8]) -> (r: Vec<usize>)
    requires
        edits@.len() >= 4 ==> old(pages)@.len() >= USABLE_PAGE_SIZE,
    ensures
        final(pages)@ == edited(old(pages)@, edits@, (edits@.len() / 4) as nat),
        as_ints(r@) == edited_pages(
            edits@,
            old(pages)@.len() as int / USABLE_PAGE_SIZE as int,
            (edits@.len() / 4) as nat,
        ),
{
    let ghost before = pages@;
    let count: usize = pages.len() / USABLE_PAGE_SIZE;
    let n: usize = edits.len() / 4;
    assert(before.len() == pages.len());
    let mut changed: Vec<usize> = Vec::new();
    assert(as_ints(changed@) =~= edited_pages(edits@, count as int, 0));
    for k in 0..n
        invariant
            n == edits@.len() / 4,
            edits@.len() <= usize::MAX,
            before.len() <= usize::MAX,
            before == old(pages)@,
            pages@.len() == before.len(),
            count == before.len() / USABLE_PAGE_SIZE as nat,
            n > 0 ==> count > 0,
            pages@ == edited(before, edits@, k as nat),
            as_ints(changed@) == edited_pages(edits@, count as int, k as nat),
    {
        assert(4 * k + 3 < edits@.len());
        let page: usize = edits[4 * k] as usize % count;
        let offset: usize = (edits[4 * k + 1] as usize + edits[4 * k + 2] as usize * 256)
            % USABLE_PAGE_SIZE;
        assert(page * USABLE_PAGE_SIZE + offset < before.len()) by (nonlinear_arith)
            requires
                page < count,
                offset < USABLE_PAGE_SIZE,
                count == before.len() / USABLE_PAGE_SIZE as nat,
                USABLE_PAGE_SIZE == 8188,
        ;
        pages.set(page * USABLE_PAGE_SIZE + offset, edits[4 * k + 3]);
        if !is_listed(&changed, page) {
            let ghost had = changed@;
            changed.push(page);
            assert(as_ints(changed@) =~= as_ints(had).push(page as int));
        }
    }
    changed
}

} // verus!
