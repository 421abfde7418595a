//! Whether a file is consistent: every page owned by exactly one thing, every
//! document readable, every index agreeing with the documents.

use crate::catalog::entry::{index_name, texts, IndexModel};
use crate::bytes::bytes_equal;
use crate::catalog::chain::{chain, has_chain, linked};
use crate::catalog::{
    exists_in, index_models, names_distinct, position, Catalog, CollectionMeta, CollectionModel,
    IndexMeta,
};
use crate::collection::apply::{contents_of, values_unique};
use crate::collection::drops::places;
use crate::collection::maintain::{copy_text, has_this_key};
use crate::collection::state::{
    collection_docs, collection_sound, entries_at, lemma_tree_facts, record_owned, records_owned,
    roots_distinct, roots_of, sound_with, Owner, Owners,
};
use crate::collection::usage::{
    lemma_record_pages, lemma_roots, lemma_used, lemma_used_once, used_by,
};
use crate::data::{chains_at, collection_pages, get_record, holds_records, record_at};
use crate::document::{models, DocId, DocModel, Document};
use crate::error::{ErrorKind, IoResult};
use crate::id::id_text;
use crate::index::btree::{tree_pages, BTreeIndex};
use crate::index::entries::sorted;
use crate::index::key::{self, key_id, MAX_COMPOUND_FIELDS};
use crate::index::node::entry_models;
use crate::index::reach::{reached, scanned};
use crate::index::tree::{has_tree, Entry};
use crate::index::Index;
use crate::order::{
    bytes_le, bytes_less, bytes_lt, lemma_lt_le_transitive, lemma_lt_total, lemma_lt_transitive,
};
use crate::secondary::{
    collides, doc_has_key, documents_collide, has_tuple, index_keys, key_models, lemma_key_of_doc,
    same_values, tuples_equal, unique_tuples,
};
use crate::storage::{PageId, PageStore, RecordLocation};
use crate::text::{decimal, decimal_text, join, joined, quoted, quoted_text};
use crate::tidy::{
    awaiting, can_claim, consistent, first_taken, free_apart, lemma_catalog_pages,
    lemma_claim_index, lemma_claim_primary, lemma_claim_records, lemma_part_taken, lemma_right,
    owned_now, owned_once, part_of, part_of_first, part_page, parts_readable, roots_apart,
};
use vstd::prelude::*;
use vstd::utf8::encode_utf8;

verus! {

/// What the file is, from its header.
#[derive(Debug, Clone, PartialEq, Eq)]
pub struct FileInfo {
    /// The format version in the header.
    pub format_version: u32,
    pub page_size: usize,
    /// Pages in the file, the header included.
    pub pages: u64,
    /// Pages on the free list, ready for reuse.
    pub free_pages: usize,
}

/// What a check found. `problems` is empty for a consistent file; each entry
/// says what's wrong and where.
#[derive(Debug, Clone, Default, PartialEq, Eq)]
pub struct CheckReport {
    pub collections: usize,
    pub documents: usize,
    pub pages: u64,
    pub problems: Vec<String>,
}

impl CheckReport {
    pub fn is_ok(&self) -> (r: bool)
        ensures
            r == (self.problems@.len() == 0),
    {
        self.problems.len() == 0
    }
}

/// A check on its way: who owns each page, as far as it's known, and what is
/// wrong so far.
pub struct Check {
    pub owners: Vec<Option<String>>,
    pub problems: Vec<String>,
}

/// Whether page `p` is in the file and owned by nothing yet.
pub open spec fn unowned(owners: Seq<Option<String>>, p: PageId) -> bool {
    p < owners.len() && owners[p as int] is None
}

/// Whether each of these pages can be claimed, one after the other.
pub open spec fn claimable(owners: Seq<Option<String>>, pages: Seq<PageId>) -> bool {
    &&& pages.no_duplicates()
    &&& forall|i: int| 0 <= i < pages.len() ==> unowned(owners, #[trigger] pages[i])
}

/// The owners once these pages are claimed: what was owned still is, and so
/// are they.
pub open spec fn claimed(
    before: Seq<Option<String>>,
    after: Seq<Option<String>>,
    pages: Seq<PageId>,
) -> bool {
    &&& after.len() == before.len()
    &&& forall|p: PageId|
        p < before.len() ==> ((#[trigger] after[p as int]) is Some <==> before[p as int] is Some
            || pages.contains(p))
}

/// What is said of a page that one thing owns and another claims.
pub open spec fn both_text(page: PageId, first: Seq<char>, owner: Seq<char>) -> Seq<char> {
    "page "@ + decimal(page as nat) + " belongs to both "@ + first + " and "@ + owner
}

/// What is said of a page that isn't in the file.
pub open spec fn past_end_text(page: PageId, owner: Seq<char>) -> Seq<char> {
    owner + " uses page "@ + decimal(page as nat) + ", past the file's end"@
}

/// What is said of a page that can't be claimed.
pub open spec fn claim_text(
    owners: Seq<Option<String>>,
    page: PageId,
    owner: Seq<char>,
) -> Seq<char> {
    if page < owners.len() {
        both_text(page, owners[page as int]->Some_0@, owner)
    } else {
        past_end_text(page, owner)
    }
}

/// Whether this is said of a page, whoever else owns it.
pub open spec fn unclaimed(
    page: PageId,
    first: Seq<char>,
    owner: Seq<char>,
    text: Seq<char>,
) -> bool {
    text == both_text(page, first, owner) || text == past_end_text(page, owner)
}

/// Whether this is said of one of these pages that couldn't be claimed.
pub open spec fn claim_problem(pages: Seq<PageId>, owner: Seq<char>, text: Seq<char>) -> bool {
    exists|i: int, first: Seq<char>|
        0 <= i < pages.len() && #[trigger] unclaimed(pages[i], first, owner, text)
}

/// Whether what was noted stays, and what was noted since is of this kind.
pub open spec fn noted(
    before: Seq<String>,
    after: Seq<String>,
    kind: spec_fn(Seq<char>) -> bool,
) -> bool {
    &&& before.len() <= after.len()
    &&& forall|i: int| 0 <= i < before.len() ==> #[trigger] after[i] == before[i]
    &&& forall|i: int| before.len() <= i < after.len() ==> kind((#[trigger] after[i])@)
}

/// Whether this was noted.
pub open spec fn said(problems: Seq<String>, text: Seq<char>) -> bool {
    exists|i: int| 0 <= i < problems.len() && (#[trigger] problems[i])@ == text
}

/// What was noted stays.
proof fn lemma_still_said(before: Seq<String>, after: Seq<String>)
    requires
        before.len() <= after.len(),
        forall|i: int| 0 <= i < before.len() ==> #[trigger] after[i] == before[i],
    ensures
        forall|text: Seq<char>| said(before, text) ==> #[trigger] said(after, text),
{
    assert forall|text: Seq<char>| said(before, text) implies #[trigger] said(after, text) by {
        let i = choose|i: int| 0 <= i < before.len() && (#[trigger] before[i])@ == text;
        assert(after[i]@ == text);
    }
}

/// One more is noted.
proof fn lemma_said_too(before: Seq<String>, message: String)
    ensures
        said(before.push(message), message@),
        forall|text: Seq<char>| said(before, text) ==> #[trigger] said(before.push(message), text),
{
    let after = before.push(message);
    assert(after[before.len() as int]@ == message@);
    lemma_still_said(before, after);
}

impl Check {
    /// A check of a file with this many pages.
    pub fn new(page_count: usize) -> (check: Check)
        ensures
            check.problems@.len() == 0,
            check.owners@.len() == page_count,
            forall|p: int| 0 <= p < page_count ==> (#[trigger] check.owners@[p]) is None,
    {
        let mut owners: Vec<Option<String>> = Vec::new();
        for i in 0..page_count
            invariant
                owners@.len() == i,
                forall|p: int| 0 <= p < i ==> (#[trigger] owners@[p]) is None,
        {
            owners.push(None);
        }
        Check { owners, problems: Vec::new() }
    }

    /// Notes what is wrong.
    pub fn problem(&mut self, problem: String)
        ensures
            final(self).owners == old(self).owners,
            final(self).problems@ == old(self).problems@.push(problem),
    {
        self.problems.push(problem);
    }

    /// Gives a page to an owner: a problem if it isn't in the file, or is
    /// owned.
    pub fn claim(&mut self, page: PageId, owner: &str)
        ensures
            if unowned(old(self).owners@, page) {
                &&& final(self).problems == old(self).problems
                &&& final(self).owners@.len() == old(self).owners@.len()
                &&& final(self).owners@[page as int] matches Some(name) && name@ == owner@
                &&& forall|p: int|
                    0 <= p < old(self).owners@.len() && p != page ==> #[trigger] final(self).owners@[p] == old(self).owners@[p]
            } else {
                &&& final(self).owners == old(self).owners
                &&& final(self).problems@.len() == old(self).problems@.len() + 1
                &&& final(self).problems@.drop_last() == old(self).problems@
                &&& final(self).problems@.last()@ == claim_text(old(self).owners@, page, owner@)
            },
    {
        let number = decimal_text(page);
        if page >= self.owners.len() as u64 {
            let message = join(
                &[owner, " uses page ", number.as_str(), ", past the file's end"],
            );
            proof {
                reveal_with_fuel(joined, 5);
                assert(message@ =~= past_end_text(page, owner@));
                assert(self.problems@.push(message).drop_last() =~= self.problems@);
            }
            self.problem(message);
            return;
        }
        let at: usize = page as usize;
        let taken: Option<String> = match &self.owners[at] {
            Some(other) => Some(
                join(
                    &["page ", number.as_str(), " belongs to both ", other.as_str(), " and ", owner],
                ),
            ),
            None => None,
        };
        match taken {
            Some(message) => {
                proof {
                    reveal_with_fuel(joined, 7);
                    assert(message@ =~= both_text(
                        page,
                        self.owners@[at as int]->Some_0@,
                        owner@,
                    ));
                    assert(self.problems@.push(message).drop_last() =~= self.problems@);
                }
                self.problem(message);
            },
            None => {
                let name = Some(copy_text(owner));
                self.owners.set(at, name);
            },
        }
    }

    /// Gives several pages to an owner.
    pub fn claim_all(&mut self, pages: &Vec<PageId>, owner: &str)
        ensures
            final(self).problems@.len() >= old(self).problems@.len(),
            final(self).owners@.len() == old(self).owners@.len(),
            claimable(old(self).owners@, pages@) ==> final(self).problems == old(self).problems
                && claimed(old(self).owners@, final(self).owners@, pages@),
            !claimable(old(self).owners@, pages@) ==> final(self).problems@.len() > old(self).problems@.len(),
            noted(
                old(self).problems@,
                final(self).problems@,
                |text: Seq<char>| claim_problem(pages@, owner@, text),
            ),
    {
        let ghost before = self.owners@;
        let n: usize = pages.len();
        for i in 0..n
            invariant
                n == pages@.len(),
                before == old(self).owners@,
                self.owners@.len() == before.len(),
                self.problems@.len() >= old(self).problems@.len(),
                claimable(before, pages@.take(i as int)) ==> self.problems == old(self).problems
                    && claimed(before, self.owners@, pages@.take(i as int)),
                !claimable(before, pages@.take(i as int)) ==> self.problems@.len() > old(self).problems@.len(),
                noted(
                    old(self).problems@,
                    self.problems@,
                    |text: Seq<char>| claim_problem(pages@, owner@, text),
                ),
        {
            let ghost were = self.owners@;
            let ghost said = self.problems@;
            let ghost front = pages@.take(i as int);
            let ghost more = pages@.take(i + 1);
            proof {
                assert(more =~= front.push(pages@[i as int]));
                if claimable(before, more) {
                    assert forall|k: int| 0 <= k < front.len() implies unowned(
                        before,
                        #[trigger] front[k],
                    ) by {
                        assert(more[k] == front[k]);
                    }
                    assert(front.no_duplicates()) by {
                        assert forall|a: int, b: int|
                            0 <= a < front.len() && 0 <= b < front.len() && a
                                != b implies front[a] != front[b] by {
                            assert(more[a] != more[b]);
                        }
                    }
                    assert(!front.contains(pages@[i as int])) by {
                        if front.contains(pages@[i as int]) {
                            let k = choose|k: int|
                                0 <= k < front.len() && front[k] == pages@[i as int];
                            assert(more[k] == more[i as int]);
                        }
                    }
                    assert(unowned(before, more[i as int]));
                } else if claimable(before, front) && unowned(before, pages@[i as int])
                    && !front.contains(pages@[i as int]) {
                    assert forall|k: int| 0 <= k < more.len() implies unowned(
                        before,
                        #[trigger] more[k],
                    ) by {
                        if k < i {
                            assert(more[k] == front[k]);
                        }
                    }
                    assert(more.no_duplicates()) by {
                        assert forall|a: int, b: int|
                            0 <= a < more.len() && 0 <= b < more.len() && a != b implies more[a]
                            != more[b] by {
                            if a < i && b < i {
                                assert(front[a] != front[b]);
                            } else if a < i {
                                assert(front.contains(front[a]));
                            } else if b < i {
                                assert(front.contains(front[b]));
                            }
                        }
                    }
                }
            }
            self.claim(pages[i], owner);
            proof {
                if !unowned(were, pages@[i as int]) {
                    let text = self.problems@.last()@;
                    assert(unclaimed(
                        pages@[i as int],
                        were[pages@[i as int] as int]->Some_0@,
                        owner@,
                        text,
                    ));
                    assert forall|k: int| 0 <= k < said.len() implies #[trigger] self.problems@[k]
                        == said[k] by {
                        assert(self.problems@.drop_last()[k] == said[k]);
                    }
                }
                if claimable(before, more) {
                    assert forall|p: PageId| p < before.len() implies ((
                    #[trigger] self.owners@[p as int]) is Some <==> before[p as int] is Some
                        || more.contains(p)) by {
                        if p == pages@[i as int] {
                            assert(more[i as int] == p);
                        } else {
                            assert(self.owners@[p as int] == were[p as int]);
                            if front.contains(p) {
                                let k = choose|k: int| 0 <= k < front.len() && front[k] == p;
                                assert(more[k] == p);
                            }
                            if more.contains(p) {
                                let k = choose|k: int| 0 <= k < more.len() && more[k] == p;
                                assert(front[k] == p);
                            }
                        }
                    }
                }
            }
        }
        assert(pages@.take(n as int) =~= pages@);
    }
}

/// A document that a check has read, and where.
pub type Checked = (DocId, Document, RecordLocation);

/// What an index should hold of the documents: their keys, each leading to
/// where its document is.
pub open spec fn should_hold(docs: Seq<Checked>, index: IndexModel, e: Entry) -> bool {
    exists|i: int|
        0 <= i < docs.len() && (#[trigger] docs[i]).2 == e.1 && doc_has_key(
            docs[i].1@,
            index,
            docs[i].0@,
            e.0,
        )
}

/// Whether an index holds exactly what it should.
pub open spec fn holds_right(entries: Seq<Entry>, docs: Seq<Checked>, index: IndexModel) -> bool {
    forall|e: Entry| #[trigger] entries.contains(e) <==> should_hold(docs, index, e)
}

/// Whether no two documents collide under an index.
pub open spec fn checked_apart(docs: Seq<Checked>, index: IndexModel) -> bool {
    forall|i: int, j: int|
        0 <= i < j < docs.len() ==> !documents_collide(
            (#[trigger] docs[i]).1@,
            (#[trigger] docs[j]).1@,
            index,
        )
}

/// Whether keys ascend strictly.
pub open spec fn keys_in_order(entries: Seq<Entry>) -> bool {
    sorted(entries)
}

/// What is said of an index that is out of order.
pub open spec fn order_text(name: Seq<char>, what: Seq<char>, id: Seq<u8>) -> Seq<char> {
    quoted_text(name) + "'s "@ + what + " is out of order at document "@ + id_text(id)
}

/// Whether entry `i` is the first that doesn't come after the one before it.
pub open spec fn first_behind(entries: Seq<Entry>, i: int) -> bool {
    &&& 0 < i < entries.len()
    &&& keys_in_order(entries.take(i))
    &&& !bytes_lt(entries[i - 1].0, entries[i].0)
}

/// Whether this is said of an index that is out of order.
pub open spec fn order_problem(
    entries: Seq<Entry>,
    name: Seq<char>,
    what: Seq<char>,
    text: Seq<char>,
) -> bool {
    exists|i: int| #[trigger] first_behind(entries, i) && text == order_text(
        name,
        what,
        key_id(entries[i].0),
    )
}

/// An index scan must come back in strictly ascending key order.
pub fn check_order(
    check: &mut Check,
    name: &str,
    what: &str,
    entries: &Vec<(Vec<u8>, RecordLocation)>,
)
    ensures
        final(check).owners == old(check).owners,
        if keys_in_order(entry_models(entries@)) {
            final(check).problems == old(check).problems
        } else {
            &&& final(check).problems@.len() == old(check).problems@.len() + 1
            &&& final(check).problems@.drop_last() == old(check).problems@
            &&& order_problem(
                entry_models(entries@),
                name@,
                what@,
                final(check).problems@.last()@,
            )
        },
{
    let n: usize = entries.len();
    let ghost all = entry_models(entries@);
    let mut i: usize = 1;
    if n < 2 {
        return;
    }
    while i < n
        invariant
            n == entries@.len(),
            all == entry_models(entries@),
            1 <= i <= n,
            check.owners == old(check).owners,
            check.problems == old(check).problems,
            forall|a: int, b: int|
                0 <= a < b < i ==> bytes_lt((#[trigger] all[a]).0, (#[trigger] all[b]).0),
        decreases n - i,
    {
        assert(all[i as int].0 == entries@[i as int].0@);
        assert(all[i - 1].0 == entries@[i - 1].0@);
        if !bytes_less(entries[i - 1].0.as_slice(), entries[i].0.as_slice()) {
            assert(!bytes_lt(all[i - 1].0, all[i as int].0));
            let id = key::doc_id(entries[i].0.as_slice());
            let shown = id.to_string();
            let quoted_name = quoted(name);
            let message = join(
                &[
                    quoted_name.as_str(),
                    "'s ",
                    what,
                    " is out of order at document ",
                    shown.as_str(),
                ],
            );
            proof {
                reveal_with_fuel(joined, 6);
                assert(message@ =~= order_text(name@, what@, key_id(all[i as int].0)));
                let front = all.take(i as int);
                assert forall|a: int, b: int| 0 <= a < b < front.len() implies bytes_lt(
                    (#[trigger] front[a]).0,
                    (#[trigger] front[b]).0,
                ) by {
                    assert(front[a] == all[a] && front[b] == all[b]);
                }
                assert(first_behind(all, i as int));
                assert(check.problems@.push(message).drop_last() =~= check.problems@);
            }
            check.problem(message);
            return;
        }
        proof {
            assert forall|a: int, b: int| 0 <= a < b < i + 1 implies bytes_lt(
                (#[trigger] all[a]).0,
                (#[trigger] all[b]).0,
            ) by {
                if b == i && a < i - 1 {
                    lemma_lt_transitive(all[a].0, all[i - 1].0, all[i as int].0);
                }
            }
        }
        i += 1;
    }
}

/// Whether two places are the same.
fn same_place(a: RecordLocation, b: RecordLocation) -> (r: bool)
    ensures
        r == (a == b),
{
    a.page == b.page && a.slot == b.slot
}

/// Whether an entry is among these. It's looked up as if they were in order,
/// and looked for everywhere if that doesn't find it.
fn has_entry(entries: &Vec<(Vec<u8>, RecordLocation)>, key: &Vec<u8>, loc: RecordLocation) -> (r: bool)
    ensures
        r == entry_models(entries@).contains((key@, loc)),
{
    let ghost all = entry_models(entries@);
    let n: usize = entries.len();
    let mut low: usize = 0;
    let mut high: usize = n;
    while low < high
        invariant
            low <= high <= n == entries@.len(),
            all == entry_models(entries@),
        decreases high - low,
    {
        let mid: usize = low + (high - low) / 2;
        assert(all[mid as int] == (entries@[mid as int].0@, entries@[mid as int].1));
        if bytes_less(entries[mid].0.as_slice(), key.as_slice()) {
            low = mid + 1;
        } else if bytes_less(key.as_slice(), entries[mid].0.as_slice()) {
            high = mid;
        } else if same_place(entries[mid].1, loc) {
            proof {
                lemma_lt_total(all[mid as int].0, key@);
            }
            return true;
        } else {
            low = high;
        }
    }
    for i in 0..n
        invariant
            n == entries@.len(),
            all == entry_models(entries@),
            forall|k: int| 0 <= k < i ==> #[trigger] all[k] != (key@, loc),
    {
        assert(all[i as int] == (entries@[i as int].0@, entries@[i as int].1));
        if same_place(entries[i].1, loc) && bytes_equal(
            entries[i].0.as_slice(),
            key.as_slice(),
        ) {
            return true;
        }
    }
    false
}

/// Whether every key of the first `n` documents is among the entries.
spec fn none_lacking(entries: Seq<Entry>, docs: Seq<Checked>, index: IndexModel, n: int) -> bool {
    forall|i: int, k: Seq<u8>|
        0 <= i < n && #[trigger] doc_has_key((#[trigger] docs[i]).1@, index, docs[i].0@, k)
            ==> entries.contains((k, docs[i].2))
}

/// Whether a document's keys are among the entries.
pub open spec fn has_its_keys(entries: Seq<Entry>, doc: Checked, index: IndexModel) -> bool {
    forall|k: Seq<u8>| #[trigger]
        doc_has_key(doc.1@, index, doc.0@, k) ==> entries.contains((k, doc.2))
}

/// What is said of a document that an index lacks.
pub open spec fn lacks_text(what: Seq<char>, id: Seq<u8>) -> Seq<char> {
    what + " lacks document "@ + id_text(id)
}

/// Whether this is said of a document that an index lacks.
pub open spec fn lacking_problem(
    entries: Seq<Entry>,
    docs: Seq<Checked>,
    index: IndexModel,
    what: Seq<char>,
    text: Seq<char>,
) -> bool {
    exists|i: int|
        0 <= i < docs.len() && !has_its_keys(entries, #[trigger] docs[i], index) && text
            == lacks_text(what, docs[i].0@)
}

/// Whether each of the first `n` documents that an index lacks was noted.
pub open spec fn lacking_said(
    entries: Seq<Entry>,
    docs: Seq<Checked>,
    index: IndexModel,
    what: Seq<char>,
    n: int,
    problems: Seq<String>,
) -> bool {
    forall|i: int|
        0 <= i < n && !has_its_keys(entries, #[trigger] docs[i], index) ==> said(
            problems,
            lacks_text(what, docs[i].0@),
        )
}

/// Notes each document that an index lacks.
fn check_lacking(
    check: &mut Check,
    what: &str,
    index: &IndexMeta,
    entries: &Vec<(Vec<u8>, RecordLocation)>,
    documents: &Vec<Checked>,
)
    requires
        1 <= index@.fields.len() <= MAX_COMPOUND_FIELDS,
    ensures
        final(check).owners == old(check).owners,
        final(check).problems@.len() >= old(check).problems@.len(),
        final(check).problems@.len() == old(check).problems@.len() <==> none_lacking(
            entry_models(entries@),
            documents@,
            index@,
            documents@.len() as int,
        ),
        noted(
            old(check).problems@,
            final(check).problems@,
            |text: Seq<char>|
                lacking_problem(entry_models(entries@), documents@, index@, what@, text),
        ),
        lacking_said(
            entry_models(entries@),
            documents@,
            index@,
            what@,
            documents@.len() as int,
            final(check).problems@,
        ),
{
    let ghost all = entry_models(entries@);
    let n: usize = documents.len();
    for i in 0..n
        invariant
            n == documents@.len(),
            all == entry_models(entries@),
            noted(
                old(check).problems@,
                check.problems@,
                |text: Seq<char>| lacking_problem(all, documents@, index@, what@, text),
            ),
            lacking_said(all, documents@, index@, what@, i as int, check.problems@),
            1 <= index@.fields.len() <= MAX_COMPOUND_FIELDS,
            check.owners == old(check).owners,
            check.problems@.len() >= old(check).problems@.len(),
            check.problems@.len() == old(check).problems@.len() <==> none_lacking(
                all,
                documents@,
                index@,
                i as int,
            ),
    {
        let ghost before = check.problems@.len();
        let doc: &Checked = &documents[i];
        let keys = index_keys(&doc.1, index, doc.0);
        let ghost models = key_models(keys@);
        let m: usize = keys.len();
        for j in 0..m
            invariant
                0 <= i < documents@.len(),
                *doc == documents@[i as int],
                m == keys@.len(),
                models == key_models(keys@),
                forall|k: Seq<u8>|
                    models.contains(k) <==> #[trigger] doc_has_key(doc.1@, index@, doc.0@, k),
                all == entry_models(entries@),
                noted(
                    old(check).problems@,
                    check.problems@,
                    |text: Seq<char>| lacking_problem(all, documents@, index@, what@, text),
                ),
                lacking_said(all, documents@, index@, what@, i as int, check.problems@),
                check.problems@.len() == before || said(
                    check.problems@,
                    lacks_text(what@, doc.0@),
                ),
                check.owners == old(check).owners,
                check.problems@.len() >= before,
                check.problems@.len() == before <==> forall|k: int|
                    0 <= k < j ==> all.contains((#[trigger] models[k], doc.2)),
        {
            assert(models[j as int] == keys@[j as int]@);
            if !has_entry(entries, &keys[j], doc.2) {
                let shown = doc.0.to_string();
                let message = join(&[what, " lacks document ", shown.as_str()]);
                proof {
                    reveal_with_fuel(joined, 4);
                    assert(message@ =~= lacks_text(what@, doc.0@));
                    assert(models.contains(models[j as int]));
                    assert(doc_has_key(doc.1@, index@, doc.0@, models[j as int]));
                    assert(!has_its_keys(all, documents@[i as int], index@));
                    assert(lacking_problem(all, documents@, index@, what@, message@));
                    lemma_said_too(check.problems@, message);
                }
                check.problem(message);
            }
        }
        proof {
            {
                assert((check.problems@.len() == before) == has_its_keys(
                    all,
                    documents@[i as int],
                    index@,
                )) by {
                    if check.problems@.len() == before {
                        assert forall|k: Seq<u8>| #[trigger]
                            doc_has_key(doc.1@, index@, doc.0@, k) implies all.contains(
                            (k, doc.2),
                        ) by {
                            assert(models.contains(k));
                            let a = choose|a: int| 0 <= a < models.len() && models[a] == k;
                            assert(all.contains((models[a], doc.2)));
                        }
                    } else if has_its_keys(all, documents@[i as int], index@) {
                        assert forall|k: int| 0 <= k < m implies all.contains(
                            (#[trigger] models[k], doc.2),
                        ) by {
                            assert(models.contains(models[k]));
                            assert(doc_has_key(doc.1@, index@, doc.0@, models[k]));
                        }
                    }
                }
                lemma_none_lacking(all, documents@, index@, i as int);
            }
        }
    }
}

proof fn lemma_none_lacking(entries: Seq<Entry>, docs: Seq<Checked>, index: IndexModel, n: int)
    requires
        0 <= n < docs.len(),
    ensures
        none_lacking(entries, docs, index, n + 1) <==> none_lacking(entries, docs, index, n)
            && has_its_keys(entries, docs[n], index),
{
    if none_lacking(entries, docs, index, n + 1) {
        assert forall|k: Seq<u8>| #[trigger]
            doc_has_key(docs[n].1@, index, docs[n].0@, k) implies entries.contains(
            (k, docs[n].2),
        ) by {}
    }
}

/// Whether a document has this key, and is there.
fn document_has_entry(
    index: &IndexMeta,
    key: &Vec<u8>,
    loc: RecordLocation,
    id: &DocId,
    doc: &Checked,
) -> (r: bool)
    requires
        1 <= index@.fields.len() <= MAX_COMPOUND_FIELDS,
        id@ == key_id(key@),
    ensures
        r == (doc.2 == loc && doc_has_key(doc.1@, index@, doc.0@, key@)),
{
    if !bytes_equal(doc.0.0.as_slice(), id.0.as_slice()) || !same_place(doc.2, loc) {
        proof {
            if doc_has_key(doc.1@, index@, doc.0@, key@) {
                lemma_key_of_doc(doc.1@, index@, doc.0@, key@);
            }
        }
        return false;
    }
    let keys = index_keys(&doc.1, index, doc.0);
    has_this_key(&keys, key)
}

/// Whether an entry is a key of a document, leading to where it is. The
/// document is looked up as if they were in order, and looked for everywhere if
/// that doesn't find it.
fn entry_is_right(
    index: &IndexMeta,
    key: &Vec<u8>,
    loc: RecordLocation,
    documents: &Vec<Checked>,
) -> (r: bool)
    requires
        1 <= index@.fields.len() <= MAX_COMPOUND_FIELDS,
    ensures
        r == should_hold(documents@, index@, (key@, loc)),
{
    let id = key::doc_id(key.as_slice());
    let n: usize = documents.len();
    let mut low: usize = 0;
    let mut high: usize = n;
    while low < high
        invariant
            low <= high <= n == documents@.len(),
            id@ == key_id(key@),
            1 <= index@.fields.len() <= MAX_COMPOUND_FIELDS,
        decreases high - low,
    {
        let mid: usize = low + (high - low) / 2;
        if bytes_less(documents[mid].0.0.as_slice(), id.0.as_slice()) {
            low = mid + 1;
        } else if bytes_less(id.0.as_slice(), documents[mid].0.0.as_slice()) {
            high = mid;
        } else if document_has_entry(index, key, loc, &id, &documents[mid]) {
            assert(documents@[mid as int].2 == loc);
            return true;
        } else {
            low = high;
        }
    }
    for i in 0..n
        invariant
            n == documents@.len(),
            id@ == key_id(key@),
            1 <= index@.fields.len() <= MAX_COMPOUND_FIELDS,
            forall|k: int|
                0 <= k < i ==> !((#[trigger] documents@[k]).2 == loc && doc_has_key(
                    documents@[k].1@,
                    index@,
                    documents@[k].0@,
                    key@,
                )),
    {
        if document_has_entry(index, key, loc, &id, &documents[i]) {
            assert(documents@[i as int].2 == loc);
            return true;
        }
    }
    false
}

/// What is said of an entry that is no document's.
pub open spec fn stray_text(what: Seq<char>, id: Seq<u8>) -> Seq<char> {
    what + " has an entry for document "@ + id_text(id) + " that doesn't match it"@
}

/// Whether this is said of an entry that is no document's.
pub open spec fn stray_problem(
    entries: Seq<Entry>,
    docs: Seq<Checked>,
    index: IndexModel,
    what: Seq<char>,
    text: Seq<char>,
) -> bool {
    exists|i: int|
        0 <= i < entries.len() && !should_hold(docs, index, #[trigger] entries[i]) && text
            == stray_text(what, key_id(entries[i].0))
}

/// Whether each of the first `n` entries that is no document's was noted.
pub open spec fn strays_said(
    entries: Seq<Entry>,
    docs: Seq<Checked>,
    index: IndexModel,
    what: Seq<char>,
    n: int,
    problems: Seq<String>,
) -> bool {
    forall|i: int|
        0 <= i < n && !should_hold(docs, index, #[trigger] entries[i]) ==> said(
            problems,
            stray_text(what, key_id(entries[i].0)),
        )
}

/// Notes each entry of an index that is no document's.
fn check_strays(
    check: &mut Check,
    what: &str,
    index: &IndexMeta,
    entries: &Vec<(Vec<u8>, RecordLocation)>,
    documents: &Vec<Checked>,
)
    requires
        1 <= index@.fields.len() <= MAX_COMPOUND_FIELDS,
    ensures
        final(check).owners == old(check).owners,
        final(check).problems@.len() >= old(check).problems@.len(),
        final(check).problems@.len() == old(check).problems@.len() <==> forall|i: int|
            0 <= i < entries@.len() ==> should_hold(
                documents@,
                index@,
                #[trigger] entry_models(entries@)[i],
            ),
        noted(
            old(check).problems@,
            final(check).problems@,
            |text: Seq<char>|
                stray_problem(entry_models(entries@), documents@, index@, what@, text),
        ),
        strays_said(
            entry_models(entries@),
            documents@,
            index@,
            what@,
            entries@.len() as int,
            final(check).problems@,
        ),
{
    let ghost all = entry_models(entries@);
    let n: usize = entries.len();
    for i in 0..n
        invariant
            n == entries@.len(),
            all == entry_models(entries@),
            1 <= index@.fields.len() <= MAX_COMPOUND_FIELDS,
            check.owners == old(check).owners,
            check.problems@.len() >= old(check).problems@.len(),
            check.problems@.len() == old(check).problems@.len() <==> forall|j: int|
                0 <= j < i ==> should_hold(documents@, index@, #[trigger] all[j]),
            noted(
                old(check).problems@,
                check.problems@,
                |text: Seq<char>| stray_problem(all, documents@, index@, what@, text),
            ),
            strays_said(all, documents@, index@, what@, i as int, check.problems@),
    {
        assert(all[i as int] == (entries@[i as int].0@, entries@[i as int].1));
        if !entry_is_right(index, &entries[i].0, entries[i].1, documents) {
            let id = key::doc_id(entries[i].0.as_slice());
            let shown = id.to_string();
            let message = join(
                &[what, " has an entry for document ", shown.as_str(), " that doesn't match it"],
            );
            proof {
                reveal_with_fuel(joined, 5);
                assert(message@ =~= stray_text(what@, key_id(all[i as int].0)));
                assert(stray_problem(all, documents@, index@, what@, message@));
                lemma_said_too(check.problems@, message);
            }
            check.problem(message);
        }
    }
}

/// Whether the documents are the records they were read from.
pub open spec fn docs_are_records(pages: Map<PageId, Seq<u8>>, docs: Seq<Checked>) -> bool {
    forall|i: int|
        0 <= i < docs.len() ==> record_at(pages, (#[trigger] docs[i]).2) == Some(
            (docs[i].0@, docs[i].1@),
        )
}

/// Whether no two of the documents collide, the first of them among the first
/// `n`.
spec fn first_apart(docs: Seq<Checked>, index: IndexModel, n: int) -> bool {
    forall|i: int, j: int|
        0 <= i < n && i < j < docs.len() ==> !documents_collide(
            (#[trigger] docs[i]).1@,
            (#[trigger] docs[j]).1@,
            index,
        )
}

/// Whether a document collides with none of those from `from` up to `upto`.
spec fn apart_from(doc: DocModel, docs: Seq<Checked>, index: IndexModel, from: int, upto: int) -> bool {
    forall|j: int|
        from <= j < upto && j < docs.len() ==> !documents_collide(
            doc,
            (#[trigger] docs[j]).1@,
            index,
        )
}

/// What a unique index compares of documents.
spec fn all_tuples(
    tuples: Seq<Vec<(Vec<u8>, Vec<Document>)>>,
    docs: Seq<Checked>,
    index: IndexModel,
    n: int,
) -> bool {
    forall|i: int| 0 <= i < n ==> tuples_of(#[trigger] tuples[i], docs[i].1@, index)
}

/// What a unique index compares of a document.
spec fn tuples_of(
    tuples: Vec<(Vec<u8>, Vec<Document>)>,
    doc: DocModel,
    index: IndexModel,
) -> bool {
    &&& forall|k: int|
        0 <= k < tuples@.len() ==> has_tuple(doc, index, models((#[trigger] tuples@[k]).1@))
    &&& forall|tuple: Seq<DocModel>| #[trigger]
        has_tuple(doc, index, tuple) ==> exists|k: int|
            0 <= k < tuples@.len() && models((#[trigger] tuples@[k]).1@) == tuple
}

/// Whether two documents share a value.
fn share_a_value(
    index: &IndexMeta,
    a: &Vec<(Vec<u8>, Vec<Document>)>,
    b: &Vec<(Vec<u8>, Vec<Document>)>,
    Ghost(first): Ghost<DocModel>,
    Ghost(second): Ghost<DocModel>,
) -> (r: bool)
    requires
        tuples_of(*a, first, index@),
        tuples_of(*b, second, index@),
    ensures
        r == documents_collide(first, second, index@),
{
    let n: usize = a.len();
    let m: usize = b.len();
    for i in 0..n
        invariant
            n == a@.len(),
            m == b@.len(),
            tuples_of(*a, first, index@),
            tuples_of(*b, second, index@),
            forall|x: int, y: int|
                0 <= x < i && 0 <= y < m ==> !tuples_equal(
                    models((#[trigger] a@[x]).1@),
                    models((#[trigger] b@[y]).1@),
                ),
    {
        for j in 0..m
            invariant
                i < n == a@.len(),
                m == b@.len(),
                tuples_of(*a, first, index@),
                tuples_of(*b, second, index@),
                forall|y: int|
                    0 <= y < j ==> !tuples_equal(
                        models(a@[i as int].1@),
                        models((#[trigger] b@[y]).1@),
                    ),
        {
            if same_values(&a[i].1, &b[j].1) {
                proof {
                    assert(has_tuple(first, index@, models(a@[i as int].1@)));
                    assert(has_tuple(second, index@, models(b@[j as int].1@)));
                    assert(collides(first, index@, models(b@[j as int].1@)));
                }
                return true;
            }
        }
    }
    proof {
        if documents_collide(first, second, index@) {
            let tuple = choose|tuple: Seq<DocModel>| #[trigger]
                has_tuple(second, index@, tuple) && collides(first, index@, tuple);
            let other = choose|other: Seq<DocModel>|
                has_tuple(first, index@, other) && #[trigger] tuples_equal(other, tuple);
            let x = choose|x: int| 0 <= x < a@.len() && models((#[trigger] a@[x]).1@) == other;
            let y = choose|y: int| 0 <= y < b@.len() && models((#[trigger] b@[y]).1@) == tuple;
            assert(!tuples_equal(models(a@[x].1@), models(b@[y].1@)));
        }
    }
    false
}

/// The first document from `from` on that shares a value with document `i`.
fn find_sharer(
    index: &IndexMeta,
    documents: &Vec<Checked>,
    tuples: &Vec<Vec<(Vec<u8>, Vec<Document>)>>,
    i: usize,
) -> (r: Option<usize>)
    requires
        i < documents@.len() == tuples@.len(),
        all_tuples(tuples@, documents@, index@, documents@.len() as int),
    ensures
        match r {
            Some(j) => i < j < documents@.len() && documents_collide(
                documents@[i as int].1@,
                documents@[j as int].1@,
                index@,
            ),
            None => apart_from(
                documents@[i as int].1@,
                documents@,
                index@,
                i + 1,
                documents@.len() as int,
            ),
        },
{
    let n: usize = documents.len();
    for j in i + 1..n
        invariant
            i < n == documents@.len() == tuples@.len(),
            all_tuples(tuples@, documents@, index@, n as int),
            apart_from(documents@[i as int].1@, documents@, index@, i + 1, j as int),
    {
        assert(tuples_of(tuples@[i as int], documents@[i as int].1@, index@));
        assert(tuples_of(tuples@[j as int], documents@[j as int].1@, index@));
        if share_a_value(
            index,
            &tuples[i],
            &tuples[j],
            Ghost(documents@[i as int].1@),
            Ghost(documents@[j as int].1@),
        ) {
            return Some(j);
        }
    }
    None
}

/// What is said of two documents that share a value.
pub open spec fn shared_text(what: Seq<char>, a: Seq<u8>, b: Seq<u8>) -> Seq<char> {
    what + " is unique, but documents "@ + id_text(a) + " and "@ + id_text(b)
        + " share a value"@
}

/// Whether this is said of two documents that share a value.
pub open spec fn shared_problem(
    docs: Seq<Checked>,
    index: IndexModel,
    what: Seq<char>,
    text: Seq<char>,
) -> bool {
    exists|i: int, j: int|
        0 <= i < j < docs.len() && documents_collide(
            (#[trigger] docs[i]).1@,
            (#[trigger] docs[j]).1@,
            index,
        ) && text == shared_text(what, docs[i].0@, docs[j].0@)
}

/// Notes each document that shares a value with a later one under a unique
/// index.
fn check_shared(check: &mut Check, what: &str, index: &IndexMeta, documents: &Vec<Checked>)
    requires
        1 <= index@.fields.len() <= MAX_COMPOUND_FIELDS,
    ensures
        final(check).owners == old(check).owners,
        final(check).problems@.len() >= old(check).problems@.len(),
        final(check).problems@.len() == old(check).problems@.len() <==> checked_apart(
            documents@,
            index@,
        ),
        noted(
            old(check).problems@,
            final(check).problems@,
            |text: Seq<char>| shared_problem(documents@, index@, what@, text),
        ),
{
    let n: usize = documents.len();
    let mut tuples: Vec<Vec<(Vec<u8>, Vec<Document>)>> = Vec::new();
    for i in 0..n
        invariant
            n == documents@.len(),
            tuples@.len() == i,
            1 <= index@.fields.len() <= MAX_COMPOUND_FIELDS,
            all_tuples(tuples@, documents@, index@, i as int),
    {
        let its = unique_tuples(&documents[i].1, index);
        assert(tuples_of(its, documents@[i as int].1@, index@));
        tuples.push(its);
    }
    for i in 0..n
        invariant
            n == documents@.len() == tuples@.len(),
            all_tuples(tuples@, documents@, index@, n as int),
            check.owners == old(check).owners,
            check.problems@.len() >= old(check).problems@.len(),
            check.problems@.len() == old(check).problems@.len() <==> first_apart(
                documents@,
                index@,
                i as int,
            ),
            noted(
                old(check).problems@,
                check.problems@,
                |text: Seq<char>| shared_problem(documents@, index@, what@, text),
            ),
    {
        proof {
            let all = apart_from(documents@[i as int].1@, documents@, index@, i + 1, n as int);
            assert(first_apart(documents@, index@, i + 1) <==> first_apart(
                documents@,
                index@,
                i as int,
            ) && all) by {
                if first_apart(documents@, index@, i + 1) {
                    assert(documents@[i as int] == documents@[i as int]);
                }
            }
        }
        match find_sharer(index, documents, &tuples, i) {
            Some(j) => {
                let a = documents[i].0.to_string();
                let b = documents[j].0.to_string();
                let message = join(
                    &[
                        what,
                        " is unique, but documents ",
                        a.as_str(),
                        " and ",
                        b.as_str(),
                        " share a value",
                    ],
                );
                proof {
                    reveal_with_fuel(joined, 7);
                    assert(message@ =~= shared_text(
                        what@,
                        documents@[i as int].0@,
                        documents@[j as int].0@,
                    ));
                    assert(shared_problem(documents@, index@, what@, message@));
                }
                check.problem(message);
                assert(!apart_from(documents@[i as int].1@, documents@, index@, i + 1, n as int)) by {
                    assert(documents@[j as int] == documents@[j as int]);
                }
            },
            None => {},
        }
    }
}

/// Whether an index is as it should be: what a scan of it gives is in order,
/// exactly what it should hold of the documents, and for a unique one no two
/// documents collide.
pub open spec fn index_right(
    pages: Map<PageId, Seq<u8>>,
    docs: Seq<Checked>,
    index: IndexModel,
) -> bool {
    &&& scanned(pages, index.root) matches Some(entries) && keys_in_order(entries) && holds_right(
        entries,
        docs,
        index,
    )
    &&& index.unique ==> checked_apart(docs, index)
}

/// How an index is named in what is said of it.
pub open spec fn on_text(index: IndexModel) -> Seq<char> {
    "index on "@ + quoted_text(index_name(index.fields))
}

/// How a collection's index is named in what is said of it.
pub open spec fn whose_text(name: Seq<char>, index: IndexModel) -> Seq<char> {
    quoted_text(name) + "'s "@ + on_text(index)
}

/// Whether this is said of an index, and so.
pub open spec fn index_problem(
    pages: Map<PageId, Seq<u8>>,
    docs: Seq<Checked>,
    name: Seq<char>,
    index: IndexModel,
    text: Seq<char>,
) -> bool {
    let what = whose_text(name, index);
    ||| reached(pages, index.root) matches Some(ids) && claim_problem(ids, what, text)
    ||| scanned(pages, index.root) matches Some(entries) && {
        ||| order_problem(entries, name, on_text(index), text)
        ||| lacking_problem(entries, docs, index, what, text)
        ||| stray_problem(entries, docs, index, what, text)
        ||| index.unique && shared_problem(docs, index, what, text)
    }
}

/// Whether all that an index lacks or has too much was noted, and that it is
/// out of order.
pub open spec fn index_told(
    entries: Seq<Entry>,
    docs: Seq<Checked>,
    name: Seq<char>,
    index: IndexModel,
    problems: Seq<String>,
) -> bool {
    let what = whose_text(name, index);
    &&& !keys_in_order(entries) ==> exists|text: Seq<char>| #[trigger]
        said(problems, text) && order_problem(entries, name, on_text(index), text)
    &&& lacking_said(entries, docs, index, what, docs.len() as int, problems)
    &&& strays_said(entries, docs, index, what, entries.len() as int, problems)
}

/// A secondary index against the documents: its pages, its order, an entry
/// for each key of each document and nothing else, and for a unique one no
/// two equal values. An `Err` is a problem that stopped the check of this
/// index partway.
pub fn check_index<S: PageStore>(
    check: &mut Check,
    store: &S,
    name: &str,
    index: &IndexMeta,
    documents: &Vec<Checked>,
) -> (r: IoResult<()>)
    requires
        store.wf(),
        1 <= index@.fields.len() <= MAX_COMPOUND_FIELDS,
    ensures
        final(check).problems@.len() >= old(check).problems@.len(),
        final(check).owners@.len() == old(check).owners@.len(),
        match r {
            Ok(()) => {
                &&& reached(store.pages(), index.root) matches Some(ids) && (claimable(
                    old(check).owners@,
                    ids,
                ) ==> claimed(old(check).owners@, final(check).owners@, ids)) && (
                final(check).problems@.len() == old(check).problems@.len() <==> claimable(
                    old(check).owners@,
                    ids,
                ) && index_right(store.pages(), documents@, index@))
                &&& scanned(store.pages(), index.root) is Some
            },
            Err(e) => !store.reliable() || (e.kind == ErrorKind::InvalidData && (reached(
                store.pages(),
                index.root,
            ) is None || scanned(store.pages(), index.root) is None)),
        },
        has_tree(store.pages(), index.root) ==> match r {
            Ok(()) => reached(store.pages(), index.root) == Some(
                tree_pages(store.pages(), index.root),
            ) && scanned(store.pages(), index.root) == Some(
                entries_at(store.pages(), index.root),
            ),
            Err(_) => !store.reliable(),
        },
        noted(
            old(check).problems@,
            final(check).problems@,
            |text: Seq<char>| index_problem(store.pages(), documents@, name@, index@, text),
        ),
        r is Ok ==> index_told(
            scanned(store.pages(), index.root)->Some_0,
            documents@,
            name@,
            index@,
            final(check).problems@,
        ),
{
    proof {
        if has_tree(store.pages(), index.root) {
            lemma_tree_facts(store.pages(), index.root);
        }
    }
    let index_text = quoted(index.name().as_str());
    let on = join(&["index on ", index_text.as_str()]);
    let name_text = quoted(name);
    let what = join(&[name_text.as_str(), "'s ", on.as_str()]);
    proof {
        reveal_with_fuel(joined, 4);
        assert(on@ =~= on_text(index@));
        assert(what@ =~= whose_text(name@, index@));
    }
    let tree = BTreeIndex::new(index.root);
    let pages = match tree.pages(store) {
        Ok(pages) => pages,
        Err(e) => return Err(e),
    };
    let ghost kind = |text: Seq<char>|
        index_problem(store.pages(), documents@, name@, index@, text);
    check.claim_all(&pages, what.as_str());
    assert(noted(old(check).problems@, check.problems@, kind));
    let entries = match tree.scan(store) {
        Ok(entries) => entries,
        Err(e) => return Err(e),
    };
    let ghost claims = check.problems@;
    check_order(check, name, on.as_str(), &entries);
    proof {
        lemma_one_more(old(check).problems@, claims, check.problems@, kind);
    }
    let ghost all = entry_models(entries@);
    let ghost ordered = check.problems@;
    proof {
        if !keys_in_order(all) {
            assert(ordered[ordered.len() - 1]@ == ordered.last()@);
            assert(said(ordered, ordered.last()@));
        }
    }
    check_lacking(check, what.as_str(), index, &entries, documents);
    assert(noted(old(check).problems@, check.problems@, kind));
    let ghost lacking = check.problems@;
    check_strays(check, what.as_str(), index, &entries, documents);
    assert(noted(old(check).problems@, check.problems@, kind));
    let ghost strays = check.problems@;
    proof {
        lemma_holds_right(entry_models(entries@), documents@, index@);
    }
    if index.unique {
        check_shared(check, what.as_str(), index, documents);
    }
    proof {
        lemma_still_said(ordered, lacking);
        lemma_still_said(lacking, strays);
        lemma_still_said(strays, check.problems@);
        if !keys_in_order(all) {
            let text = ordered.last()@;
            assert(said(lacking, text));
            assert(said(strays, text));
            assert(said(check.problems@, text));
        }
        assert(index_told(all, documents@, name@, index@, check.problems@));
    }
    Ok(())
}

/// An index holds what it should if nothing is lacking and nothing stray.
proof fn lemma_holds_right(entries: Seq<Entry>, docs: Seq<Checked>, index: IndexModel)
    ensures
        holds_right(entries, docs, index) <==> none_lacking(
            entries,
            docs,
            index,
            docs.len() as int,
        ) && (forall|i: int|
            0 <= i < entries.len() ==> should_hold(docs, index, #[trigger] entries[i])),
{
    if holds_right(entries, docs, index) {
        assert forall|i: int, k: Seq<u8>|
            0 <= i < docs.len() && #[trigger] doc_has_key(
                (#[trigger] docs[i]).1@,
                index,
                docs[i].0@,
                k,
            ) implies entries.contains((k, docs[i].2)) by {
            assert(should_hold(docs, index, (k, docs[i].2)));
        }
        assert forall|i: int| 0 <= i < entries.len() implies should_hold(
            docs,
            index,
            #[trigger] entries[i],
        ) by {
            assert(entries.contains(entries[i]));
        }
    }
    if none_lacking(entries, docs, index, docs.len() as int) && (forall|i: int|
        0 <= i < entries.len() ==> should_hold(docs, index, #[trigger] entries[i])) {
        assert forall|e: Entry| #[trigger] entries.contains(e) <==> should_hold(docs, index, e) by {
            if entries.contains(e) {
                let i = choose|i: int| 0 <= i < entries.len() && entries[i] == e;
                assert(should_hold(docs, index, entries[i]));
            }
            if should_hold(docs, index, e) {
                let i = choose|i: int|
                    0 <= i < docs.len() && (#[trigger] docs[i]).2 == e.1 && doc_has_key(
                        docs[i].1@,
                        index,
                        docs[i].0@,
                        e.0,
                    );
                assert(entries.contains((e.0, docs[i].2)));
            }
        }
    }
}

/// What is said of a document that isn't where the primary index has it.
pub open spec fn misfiled_text(
    name: Seq<char>,
    expected: Seq<u8>,
    loc: RecordLocation,
    id: Seq<u8>,
) -> Seq<char> {
    quoted_text(name) + ": the primary index files document "@ + id_text(expected) + " at page "@
        + decimal(loc.page as nat) + " slot "@ + decimal(loc.slot as nat)
        + ", which holds document "@ + id_text(id)
}

/// What is said of a document that can't be read.
pub open spec fn unreadable_text(name: Seq<char>, id: Seq<u8>, why: Seq<char>) -> Seq<char> {
    quoted_text(name) + ": document "@ + id_text(id) + " can't be read: "@ + why
}

/// Whether this is said of a document that the primary index leads to.
pub open spec fn document_problem(
    pages: Map<PageId, Seq<u8>>,
    reliable: bool,
    entries: Seq<Entry>,
    name: Seq<char>,
    text: Seq<char>,
) -> bool {
    exists|i: int|
        0 <= i < entries.len() && entry_problem(
            pages,
            reliable,
            #[trigger] entries[i],
            name,
            text,
        )
}

/// Whether this is said of the document that an entry leads to.
pub open spec fn entry_problem(
    pages: Map<PageId, Seq<u8>>,
    reliable: bool,
    e: Entry,
    name: Seq<char>,
    text: Seq<char>,
) -> bool {
    ||| record_at(pages, e.1) matches Some((id, _)) && id != key_id(e.0) && text
        == misfiled_text(name, key_id(e.0), e.1, id)
    ||| (record_at(pages, e.1) is None || !reliable) && exists|why: Seq<char>|
        text == #[trigger] unreadable_text(name, key_id(e.0), why)
}

/// What a check makes of one collection: its documents, or why they can't be
/// had.
fn check_documents<S: PageStore>(
    check: &mut Check,
    store: &S,
    name: &str,
    entries: &Vec<(Vec<u8>, RecordLocation)>,
) -> (r: Vec<Checked>)
    requires
        store.wf(),
    ensures
        final(check).owners == old(check).owners,
        final(check).problems@.len() >= old(check).problems@.len(),
        docs_are_records(store.pages(), r@),
        final(check).problems@.len() == old(check).problems@.len() ==> r@.len() == entries@.len()
            && forall|i: int|
            0 <= i < r@.len() ==> (#[trigger] r@[i]).0@ == key_id(entry_models(entries@)[i].0)
                && r@[i].2 == entry_models(entries@)[i].1,
        store.reliable() && (forall|i: int|
            0 <= i < entries@.len() ==> (record_at(
                store.pages(),
                (#[trigger] entry_models(entries@)[i]).1,
            ) matches Some((id, _)) && id == key_id(entry_models(entries@)[i].0)))
            ==> final(check).problems@.len() == old(check).problems@.len(),
        noted(
            old(check).problems@,
            final(check).problems@,
            |text: Seq<char>|
                document_problem(
                    store.pages(),
                    store.reliable(),
                    entry_models(entries@),
                    name@,
                    text,
                ),
        ),
{
    let mut documents: Vec<Checked> = Vec::new();
    let ghost all = entry_models(entries@);
    let ghost pages = store.pages();
    let n: usize = entries.len();
    for i in 0..n
        invariant
            n == entries@.len(),
            all == entry_models(entries@),
            pages == store.pages(),
            store.wf(),
            check.owners == old(check).owners,
            check.problems@.len() >= old(check).problems@.len(),
            docs_are_records(pages, documents@),
            check.problems@.len() == old(check).problems@.len() ==> documents@.len() == i
                && forall|d: int|
                0 <= d < documents@.len() ==> (#[trigger] documents@[d]).0@ == key_id(all[d].0)
                    && documents@[d].2 == all[d].1,
            store.reliable() && (forall|k: int|
                0 <= k < i ==> (record_at(pages, (#[trigger] all[k]).1) matches Some((id, _)) && id
                    == key_id(all[k].0))) ==> check.problems@.len() == old(check).problems@.len(),
            noted(
                old(check).problems@,
                check.problems@,
                |text: Seq<char>|
                    document_problem(pages, store.reliable(), all, name@, text),
            ),
    {
        assert(all[i as int] == (entries@[i as int].0@, entries@[i as int].1));
        let expected = key::doc_id(entries[i].0.as_slice());
        let loc: RecordLocation = entries[i].1;
        let expected_text = expected.to_string();
        let name_text = quoted(name);
        match get_record(store, loc) {
            Ok((id, doc)) => {
                if crate::bytes::bytes_equal(id.0.as_slice(), expected.0.as_slice()) {
                    documents.push((id, doc, loc));
                } else {
                    let page = decimal_text(loc.page);
                    let slot = decimal_text(loc.slot as u64);
                    let shown = id.to_string();
                    let message = join(
                        &[
                            name_text.as_str(),
                            ": the primary index files document ",
                            expected_text.as_str(),
                            " at page ",
                            page.as_str(),
                            " slot ",
                            slot.as_str(),
                            ", which holds document ",
                            shown.as_str(),
                        ],
                    );
                    proof {
                        reveal_with_fuel(joined, 10);
                        assert(message@ =~= misfiled_text(name@, expected@, loc, id@));
                        assert(id@ != expected@);
                        assert(entry_problem(
                            pages,
                            store.reliable(),
                            all[i as int],
                            name@,
                            message@,
                        ));
                    }
                    check.problem(message);
                }
            },
            Err(e) => {
                let message = join(
                    &[
                        name_text.as_str(),
                        ": document ",
                        expected_text.as_str(),
                        " can't be read: ",
                        e.message.as_str(),
                    ],
                );
                proof {
                    reveal_with_fuel(joined, 6);
                    assert(message@ =~= unreadable_text(name@, expected@, e.message@));
                    assert(record_at(pages, all[i as int].1) is None || !store.reliable());
                    assert(message@ == unreadable_text(
                        name@,
                        key_id(all[i as int].0),
                        e.message@,
                    ));
                    assert(entry_problem(
                        pages,
                        store.reliable(),
                        all[i as int],
                        name@,
                        message@,
                    ));
                }
                check.problem(message);
            },
        }
    }
    documents
}

/// Where documents are.
fn checked_places(documents: &Vec<Checked>) -> (r: Vec<RecordLocation>)
    ensures
        r@.len() == documents@.len(),
        forall|i: int| 0 <= i < r@.len() ==> #[trigger] r@[i] == documents@[i].2,
{
    let mut locs: Vec<RecordLocation> = Vec::new();
    let n: usize = documents.len();
    for i in 0..n
        invariant
            n == documents@.len(),
            locs@.len() == i,
            forall|j: int| 0 <= j < i ==> #[trigger] locs@[j] == documents@[j].2,
    {
        locs.push(documents[i].2);
    }
    locs
}

/// Whether documents are those that the primary index's entries lead to.
pub open spec fn docs_of_entries(docs: Seq<Checked>, entries: Seq<Entry>) -> bool {
    docs.len() == entries.len() && forall|i: int|
        0 <= i < docs.len() ==> (#[trigger] docs[i]).0@ == key_id(entries[i].0) && docs[i].2
            == entries[i].1
}

/// Whether the first `n` indexes agree with the documents.
pub open spec fn indexes_right(
    pages: Map<PageId, Seq<u8>>,
    docs: Seq<Checked>,
    indexes: Seq<IndexModel>,
    n: int,
) -> bool {
    forall|k: int|
        0 <= k < n ==> 1 <= (#[trigger] indexes[k]).fields.len() <= MAX_COMPOUND_FIELDS
            && index_right(pages, docs, indexes[k])
}

/// Whether a collection is as it should be: its primary index in order, every
/// document readable and stored under its own id, and every index agreeing with
/// the documents.
pub open spec fn collection_right(
    pages: Map<PageId, Seq<u8>>,
    c: CollectionModel,
    count: int,
) -> bool {
    scanned(pages, c.meta.index_root) matches Some(entries) && keys_in_order(entries)
        && exists|docs: Seq<Checked>|
        docs.len() == count && docs_of_entries(docs, entries) && #[trigger] docs_are_records(
            pages,
            docs,
        ) && indexes_right(pages, docs, c.indexes, c.indexes.len() as int)
}

/// Whether this is said of some page that an owner couldn't claim.
pub open spec fn some_claim_problem(owner: Seq<char>, text: Seq<char>) -> bool {
    exists|page: PageId, first: Seq<char>| #[trigger] unclaimed(page, first, owner, text)
}

/// What is said of an index on no field, or on too many.
pub open spec fn fields_text(name: Seq<char>, index: IndexModel) -> Seq<char> {
    whose_text(name, index) + " has a wrong number of fields"@
}

/// What is said of an index that can't be read.
pub open spec fn stopped_text(name: Seq<char>, index: IndexModel, why: Seq<char>) -> Seq<char> {
    whose_text(name, index) + ": "@ + why
}

/// Whether this is said of one of a collection's indexes.
pub open spec fn indexes_problem(
    pages: Map<PageId, Seq<u8>>,
    docs: Seq<Checked>,
    indexes: Seq<IndexModel>,
    name: Seq<char>,
    text: Seq<char>,
) -> bool {
    exists|k: int|
        0 <= k < indexes.len() && {
            ||| index_problem(pages, docs, name, #[trigger] indexes[k], text)
            ||| !(1 <= indexes[k].fields.len() <= MAX_COMPOUND_FIELDS) && text == fields_text(
                name,
                indexes[k],
            )
            ||| exists|why: Seq<char>| text == #[trigger] stopped_text(name, indexes[k], why)
        }
}

/// Whether this is said of a collection: of its pages, of its primary index, of
/// a document, or of one of its indexes against documents that were read.
pub open spec fn collection_problem(
    pages: Map<PageId, Seq<u8>>,
    reliable: bool,
    c: CollectionModel,
    name: Seq<char>,
    text: Seq<char>,
) -> bool {
    ||| reached(pages, c.meta.index_root) matches Some(ids) && claim_problem(
        ids,
        quoted_text(name) + "'s primary index"@,
        text,
    )
    ||| scanned(pages, c.meta.index_root) matches Some(entries) && {
        ||| order_problem(entries, name, "primary index"@, text)
        ||| document_problem(pages, reliable, entries, name, text)
    }
    ||| some_claim_problem(quoted_text(name) + "'s documents"@, text)
    ||| some_claim_problem(quoted_text(name) + "'s large documents"@, text)
    ||| exists|docs: Seq<Checked>| #[trigger]
        docs_are_records(pages, docs) && indexes_problem(pages, docs, c.indexes, name, text)
}

/// Checks one collection, claiming its pages; gives how many documents it
/// has. An `Err` is a problem that stopped the check of this collection
/// partway.
pub fn check_collection<S: PageStore>(
    check: &mut Check,
    catalog: &Catalog,
    store: &S,
    name: &str,
) -> (r: IoResult<usize>)
    requires
        store.wf(),
        exists_in(catalog@, name@),
    ensures
        final(check).problems@.len() >= old(check).problems@.len(),
        final(check).owners@.len() == old(check).owners@.len(),
        r matches Ok(n) ==> (final(check).problems@.len() == old(check).problems@.len() ==> {
            let c = catalog@[position(catalog@, name@) as int];
            &&& collection_right(store.pages(), c, n as int)
            &&& parts_readable(store.pages(), c)
            &&& first_taken(
                old(check).owners@,
                final(check).owners@,
                store.pages(),
                c,
                3 + c.indexes.len() as int,
            )
        }),
        ({
            let c = catalog@[position(catalog@, name@) as int];
            store.reliable() && whole_before(store.pages(), c, old(check).owners@) ==> {
                &&& r matches Ok(n) && n == entries_at(store.pages(), c.meta.index_root).len()
                &&& final(check).problems@.len() == old(check).problems@.len()
                &&& owned_now(
                    old(check).owners@,
                    final(check).owners@,
                    store.pages(),
                    c,
                    roots_of(c).len() as int,
                )
            }
        }),
        noted(
            old(check).problems@,
            final(check).problems@,
            |text: Seq<char>|
                collection_problem(
                    store.pages(),
                    store.reliable(),
                    catalog@[position(catalog@, name@) as int],
                    name@,
                    text,
                ),
        ),
{
    let ghost pages = store.pages();
    let ghost c = catalog@[position(catalog@, name@) as int];
    let ghost before = check.owners@;
    let ghost whole = store.reliable() && whole_before(pages, c, before);
    let ghost own = choose|own: Owners| awaiting(pages, own, c, before);
    let meta: CollectionMeta = match catalog.get(name) {
        Some(meta) => *meta,
        None => return Ok(0),
    };
    let indexes: &[IndexMeta] = catalog.indexes(name);
    let ghost list = index_models(indexes@);
    let ghost start = check.problems@.len();
    proof {
        if whole {
            lemma_whole(pages, own, c);
            lemma_claim_primary(pages, own, c, before);
            lemma_tree_facts(pages, meta.index_root);
        }
    }
    let primary = BTreeIndex::new(meta.index_root);
    let tree = match primary.pages(store) {
        Ok(tree) => tree,
        Err(e) => return Err(e),
    };
    let name_text = quoted(name);
    let owner = join(&[name_text.as_str(), "'s primary index"]);
    proof {
        reveal_with_fuel(joined, 3);
        assert(owner@ =~= quoted_text(name@) + "'s primary index"@);
    }
    check.claim_all(&tree, owner.as_str());
    let ghost first = check.owners@;
    let ghost kind = |text: Seq<char>|
        collection_problem(pages, store.reliable(), c, name@, text);
    assert(noted(old(check).problems@, check.problems@, kind));
    proof {
        if check.problems@.len() == start {
            lemma_part_taken(before, before, first, pages, c, 0, tree@);
        }
    }
    let entries = match primary.scan(store) {
        Ok(entries) => entries,
        Err(e) => return Err(e),
    };
    let ghost claims = check.problems@;
    check_order(check, name, "primary index", &entries);
    proof {
        assert(noted(old(check).problems@, check.problems@, kind)) by {
            lemma_one_more(old(check).problems@, claims, check.problems@, kind);
        }
    }
    let documents = check_documents(check, store, name, &entries);
    assert(noted(old(check).problems@, check.problems@, kind));
    let locs = checked_places(&documents);
    proof {
        if whole {
            assert(check.problems@.len() == start);
            assert(locs@ =~= places(entries_at(pages, meta.index_root)));
            lemma_record_pages(pages, own, c);
        }
    }
    let (data_pages, chain_pages) = match collection_pages(
        store,
        meta.current_data_page,
        locs.as_slice(),
    ) {
        Ok(found) => found,
        Err(e) => return Err(e),
    };
    proof {
        if whole {
            lemma_claim_records(pages, own, c, before, first, data_pages@, first, first);
        }
    }
    let owner = join(&[name_text.as_str(), "'s documents"]);
    proof {
        reveal_with_fuel(joined, 3);
        assert(owner@ =~= quoted_text(name@) + "'s documents"@);
    }
    let ghost said = check.problems@;
    check.claim_all(&data_pages, owner.as_str());
    proof {
        lemma_some_claims(said, check.problems@, data_pages@, owner@);
        assert(noted(old(check).problems@, check.problems@, kind));
    }
    let ghost second = check.owners@;
    proof {
        if check.problems@.len() == start {
            assert(locs@ =~= places(entry_models(entries@)));
            assert forall|p: PageId| #[trigger] data_pages@.contains(p) <==> part_page(
                pages,
                c,
                1,
                p,
            ) by {
                assert(data_pages@.contains(p) <==> holds_records(
                    meta.current_data_page,
                    locs@,
                    p,
                ));
            }
            lemma_part_taken(before, first, second, pages, c, 1, data_pages@);
        }
        if whole {
            lemma_claim_records(pages, own, c, before, first, data_pages@, second, second);
        }
    }
    let owner = join(&[name_text.as_str(), "'s large documents"]);
    proof {
        reveal_with_fuel(joined, 3);
        assert(owner@ =~= quoted_text(name@) + "'s large documents"@);
    }
    let ghost said = check.problems@;
    check.claim_all(&chain_pages, owner.as_str());
    proof {
        lemma_some_claims(said, check.problems@, chain_pages@, owner@);
        assert(noted(old(check).problems@, check.problems@, kind));
    }
    proof {
        if check.problems@.len() == start {
            lemma_part_taken(before, second, check.owners@, pages, c, 2, chain_pages@);
        }
        if whole {
            lemma_claim_records(pages, own, c, before, first, data_pages@, second, check.owners@);
        }
    }
    let n: usize = indexes.len();
    for k in 0..n
        invariant
            n == indexes@.len(),
            list == index_models(indexes@),
            list == c.indexes,
            meta == c.meta,
            whole ==> store.reliable() && awaiting(pages, own, c, before) && values_unique(
                contents_of(collection_docs(pages, c)),
                c.indexes,
            ),
            whole ==> check.problems@.len() == start && owned_now(
                before,
                check.owners@,
                pages,
                c,
                k + 1,
            ) && docs_of_entries(documents@, entries_at(pages, meta.index_root)),
            store.wf(),
            store.pages() == pages,
            check.problems@.len() >= start,
            kind == (|text: Seq<char>|
                collection_problem(pages, store.reliable(), c, name@, text)),
            noted(old(check).problems@, check.problems@, kind),
            name_text@ == quoted_text(name@),
            check.owners@.len() == old(check).owners@.len(),
            before == old(check).owners@,
            start == old(check).problems@.len(),
            docs_are_records(pages, documents@),
            scanned(pages, c.meta.index_root) == Some(entry_models(entries@)),
            reached(pages, c.meta.index_root) is Some,
            check.problems@.len() == start ==> {
                &&& keys_in_order(entry_models(entries@))
                &&& docs_of_entries(documents@, entry_models(entries@))
                &&& chains_at(pages, places(entry_models(entries@))) is Some
                &&& indexes_right(pages, documents@, list, k as int)
                &&& first_taken(before, check.owners@, pages, c, k + 3)
                &&& forall|j: int|
                    0 <= j < k ==> reached(pages, (#[trigger] list[j]).root) is Some && scanned(
                        pages,
                        list[j].root,
                    ) is Some
            },
    {
        let ghost owners = check.owners@;
        let ghost said = check.problems@;
        assert(list[k as int] == indexes@[k as int]@);
        let index: &IndexMeta = &indexes[k];
        proof {
            if whole {
                lemma_right(pages, own, c, documents@, k as int);
                lemma_claim_index(pages, own, c, before, owners, owners, k as int);
            }
        }
        proof {
            if whole {
                lemma_whole_index(pages, own, c, k as int);
            }
        }
        let index_text = quoted(index.name().as_str());
        if index.fields.len() < 1 || index.fields.len() > MAX_COMPOUND_FIELDS {
            let message = join(
                &[
                    name_text.as_str(),
                    "'s ",
                    "index on ",
                    index_text.as_str(),
                    " has a wrong number of fields",
                ],
            );
            proof {
                reveal_with_fuel(joined, 6);
                assert(message@ =~= fields_text(name@, list[k as int]));
                assert(indexes_problem(pages, documents@, list, name@, message@));
            }
            check.problem(message);
        } else {
            match check_index(check, store, name, index, &documents) {
                Ok(()) => {
                    proof {
                        lemma_index_noted(
                            said,
                            check.problems@,
                            pages,
                            documents@,
                            list,
                            name@,
                            k as int,
                        );
                        if check.problems@.len() == start {
                            let ids = reached(pages, index.root)->Some_0;
                            assert(c.indexes[k as int].root == index.root);
                            lemma_part_taken(
                                before,
                                owners,
                                check.owners@,
                                pages,
                                c,
                                k + 3,
                                ids,
                            );
                        }
                    }
                },
                Err(e) => {
                    proof {
                        lemma_index_noted(
                            said,
                            check.problems@,
                            pages,
                            documents@,
                            list,
                            name@,
                            k as int,
                        );
                    }
                    let message = join(
                        &[
                            name_text.as_str(),
                            "'s ",
                            "index on ",
                            index_text.as_str(),
                            ": ",
                            e.message.as_str(),
                        ],
                    );
                    proof {
                        reveal_with_fuel(joined, 7);
                        assert(message@ =~= stopped_text(name@, list[k as int], e.message@));
                        assert(indexes_problem(pages, documents@, list, name@, message@));
                    }
                    check.problem(message);
                },
            }
        }
        proof {
            if whole {
                lemma_claim_index(pages, own, c, before, owners, check.owners@, k as int);
            }
        }
    }
    Ok(documents.len())
}

/// One problem more, of the same kind.
proof fn lemma_one_more(
    before: Seq<String>,
    middle: Seq<String>,
    after: Seq<String>,
    kind: spec_fn(Seq<char>) -> bool,
)
    requires
        noted(before, middle, kind),
        after == middle || (after.len() == middle.len() + 1 && after.drop_last() == middle && kind(
            after.last()@,
        )),
    ensures
        noted(before, after, kind),
{
    assert forall|i: int| 0 <= i < middle.len() implies #[trigger] after[i] == middle[i] by {
        if after != middle {
            assert(after.drop_last()[i] == middle[i]);
        }
    }
}

/// What is said of some of a list's pages.
proof fn lemma_some_claims(
    before: Seq<String>,
    after: Seq<String>,
    pages: Seq<PageId>,
    owner: Seq<char>,
)
    requires
        noted(before, after, |text: Seq<char>| claim_problem(pages, owner, text)),
    ensures
        noted(before, after, |text: Seq<char>| some_claim_problem(owner, text)),
{
    assert forall|i: int| before.len() <= i < after.len() implies some_claim_problem(
        owner,
        (#[trigger] after[i])@,
    ) by {
        assert(claim_problem(pages, owner, after[i]@));
        let (k, first) = choose|k: int, first: Seq<char>|
            0 <= k < pages.len() && #[trigger] unclaimed(pages[k], first, owner, after[i]@);
        assert(unclaimed(pages[k], first, owner, after[i]@));
    }
}

/// What is said of one index is said of the indexes.
proof fn lemma_index_noted(
    before: Seq<String>,
    after: Seq<String>,
    pages: Map<PageId, Seq<u8>>,
    docs: Seq<Checked>,
    indexes: Seq<IndexModel>,
    name: Seq<char>,
    k: int,
)
    requires
        0 <= k < indexes.len(),
        noted(
            before,
            after,
            |text: Seq<char>| index_problem(pages, docs, name, indexes[k], text),
        ),
    ensures
        noted(
            before,
            after,
            |text: Seq<char>| indexes_problem(pages, docs, indexes, name, text),
        ),
{
    assert forall|i: int| before.len() <= i < after.len() implies indexes_problem(
        pages,
        docs,
        indexes,
        name,
        (#[trigger] after[i])@,
    ) by {
        assert(index_problem(pages, docs, name, indexes[k], after[i]@));
    }
}

/// Whether a collection is whole, its unique indexes included, before its
/// pages are claimed.
pub open spec fn whole_before(
    pages: Map<PageId, Seq<u8>>,
    c: CollectionModel,
    owners: Seq<Option<String>>,
) -> bool {
    &&& can_claim(pages, c, owners)
    &&& values_unique(contents_of(collection_docs(pages, c)), c.indexes)
}

/// A whole collection's secondary index can be read, and is in order.
proof fn lemma_whole_index(pages: Map<PageId, Seq<u8>>, own: Owners, c: CollectionModel, k: int)
    requires
        collection_sound(pages, own, c),
        0 <= k < c.indexes.len(),
    ensures
        has_tree(pages, c.indexes[k].root),
        sorted(entries_at(pages, c.indexes[k].root)),
{
    lemma_roots(pages, own, c, k + 1);
    assert(roots_of(c)[k + 1] == c.indexes[k].root);
}

/// A whole collection's primary index can be read, and so can its records.
proof fn lemma_whole(pages: Map<PageId, Seq<u8>>, own: Owners, c: CollectionModel)
    requires
        collection_sound(pages, own, c),
    ensures
        has_tree(pages, c.meta.index_root),
        forall|i: int|
            0 <= i < entries_at(pages, c.meta.index_root).len() ==> (record_at(
                pages,
                (#[trigger] entries_at(pages, c.meta.index_root)[i]).1,
            ) matches Some((id, _)) && id == key_id(entries_at(pages, c.meta.index_root)[i].0)),
{
    lemma_roots(pages, own, c, 0);
    assert(roots_of(c)[0] == c.meta.index_root);
    reveal(collection_sound);
    reveal(records_owned);
    let entries = entries_at(pages, c.meta.index_root);
    assert forall|i: int| 0 <= i < entries.len() implies (record_at(
        pages,
        (#[trigger] entries[i]).1,
    ) matches Some((id, _)) && id == key_id(entries[i].0)) by {
        assert(record_owned(pages, own, c.meta.index_root, entries[i]));
        assert(entries[i].0.skip(0) =~= entries[i].0);
    }
}

/// What a measure of names adds up to.
pub open spec fn total(names: Seq<Seq<char>>, measure: spec_fn(Seq<char>) -> nat) -> nat
    decreases names.len(),
{
    if names.len() == 0 {
        0
    } else {
        total(names.drop_last(), measure) + measure(names.last())
    }
}

proof fn lemma_total_insert(
    names: Seq<Seq<char>>,
    at: int,
    name: Seq<char>,
    measure: spec_fn(Seq<char>) -> nat,
)
    requires
        0 <= at <= names.len(),
    ensures
        total(names.insert(at, name), measure) == total(names, measure) + measure(name),
    decreases names.len(),
{
    let more = names.insert(at, name);
    if at == names.len() {
        assert(more.drop_last() =~= names);
    } else {
        lemma_total_insert(names.drop_last(), at, name, measure);
        assert(more.drop_last() =~= names.drop_last().insert(at, name));
        assert(more.last() == names.last());
    }
}

/// The collections' names, as listed.
pub open spec fn listed_names(list: Seq<CollectionModel>) -> Seq<Seq<char>> {
    Seq::new(list.len(), |i: int| list[i].name)
}

/// How many documents the first `n` collections have.
pub open spec fn documents_in(
    pages: Map<PageId, Seq<u8>>,
    list: Seq<CollectionModel>,
    n: int,
) -> nat
    decreases n,
{
    if n <= 0 {
        0
    } else {
        documents_in(pages, list, n - 1) + entries_at(pages, list[n - 1].meta.index_root).len()
    }
}

/// How many documents the collection with a name has.
spec fn documents_of(
    pages: Map<PageId, Seq<u8>>,
    list: Seq<CollectionModel>,
) -> spec_fn(Seq<char>) -> nat {
    |name: Seq<char>| entries_at(pages, list[position(list, name) as int].meta.index_root).len()
}

proof fn lemma_documents_in(pages: Map<PageId, Seq<u8>>, list: Seq<CollectionModel>, n: int)
    requires
        names_distinct(list),
        0 <= n <= list.len(),
    ensures
        total(listed_names(list).take(n), documents_of(pages, list)) == documents_in(pages, list, n),
    decreases n,
{
    let front = listed_names(list).take(n);
    if n > 0 {
        lemma_documents_in(pages, list, n - 1);
        assert(front.drop_last() =~= listed_names(list).take(n - 1));
        assert(front.last() == list[n - 1].name);
        crate::catalog::lemma_position(list, list[n - 1].name);
        let at = position(list, list[n - 1].name) as int;
        assert(list[at].name == list[n - 1].name);
        assert(at == n - 1);
    }
}

/// Whether names are in ascending order of their UTF-8 bytes.
pub open spec fn names_ascending(names: Seq<Seq<char>>) -> bool {
    forall|i: int, j: int|
        0 <= i < j < names.len() ==> bytes_le(
            encode_utf8(#[trigger] names[i]),
            encode_utf8(#[trigger] names[j]),
        )
}

/// A name between those before it and those that come later.
proof fn lemma_name_in_order(names: Seq<Seq<char>>, at: int, name: Seq<char>)
    requires
        0 <= at <= names.len(),
        forall|k: int|
            0 <= k < at ==> bytes_lt(encode_utf8(#[trigger] names[k]), encode_utf8(name)),
        at < names.len() ==> bytes_le(encode_utf8(name), encode_utf8(names[at])),
    ensures
        names_ascending(names) ==> names_ascending(names.insert(at, name)),
{
    if names_ascending(names) {
        let now = names.insert(at, name);
        assert forall|i: int, j: int| 0 <= i < j < now.len() implies bytes_le(
            encode_utf8(#[trigger] now[i]),
            encode_utf8(#[trigger] now[j]),
        ) by {
            let x = if i < at {
                i
            } else {
                i - 1
            };
            let y = if j < at {
                j
            } else {
                j - 1
            };
            if i != at && j != at {
                assert(now[i] == names[x] && now[j] == names[y]);
            } else if i == at {
                assert(now[j] == names[j - 1]);
                if j - 1 > at {
                    let a = encode_utf8(name);
                    let b = encode_utf8(names[at]);
                    let c = encode_utf8(names[j - 1]);
                    assert(bytes_le(b, c));
                    if bytes_lt(a, b) || bytes_lt(b, c) {
                        lemma_lt_le_transitive(a, b, c);
                    }
                }
            } else {
                assert(now[i] == names[i]);
            }
        }
    }
}

/// Puts a name where it belongs in order.
fn insert_name(names: &mut Vec<String>, name: String)
    ensures
        forall|measure: spec_fn(Seq<char>) -> nat| #[trigger]
            total(texts(final(names)@), measure) == total(texts(old(names)@), measure) + measure(
                name@,
            ),
        final(names)@.len() == old(names)@.len() + 1,
        forall|i: int|
            0 <= i < final(names)@.len() ==> (#[trigger] final(names)@[i])@ == name@ || named_among(
                old(names)@,
                final(names)@[i]@,
            ),
        named_among(final(names)@, name@),
        forall|other: Seq<char>| #[trigger]
            named_among(old(names)@, other) ==> named_among(final(names)@, other),
        no_name_twice(old(names)@) && !named_among(old(names)@, name@) ==> no_name_twice(
            final(names)@,
        ),
        names_ascending(texts(old(names)@)) ==> names_ascending(texts(final(names)@)),
{
    let n: usize = names.len();
    let mut at: usize = 0;
    while at < n && bytes_less(names[at].as_str().as_bytes(), name.as_str().as_bytes())
        invariant
            n == names@.len(),
            at <= n,
            forall|k: int|
                0 <= k < at ==> bytes_lt(
                    encode_utf8((#[trigger] names@[k])@),
                    encode_utf8(name@),
                ),
        decreases n - at,
    {
        at += 1;
    }
    let ghost before = names@;
    let ghost it = name@;
    proof {
        if at < n {
            lemma_lt_total(encode_utf8(before[at as int]@), encode_utf8(it));
        }
    }
    names.insert(at, name);
    proof {
        lemma_name_in_order(texts(before), at as int, it);
        assert(texts(names@) =~= texts(before).insert(at as int, it));
        assert forall|measure: spec_fn(Seq<char>) -> nat| #[trigger]
            total(texts(names@), measure) == total(texts(before), measure) + measure(it) by {
            lemma_total_insert(texts(before), at as int, it, measure);
        }
        assert forall|i: int| 0 <= i < names@.len() implies (#[trigger] names@[i])@ == it
            || named_among(before, names@[i]@) by {
            if i < at {
                assert(before[i]@ == names@[i]@);
            } else if i > at {
                assert(before[i - 1]@ == names@[i]@);
            }
        }
        assert(names@[at as int]@ == it);
        assert forall|other: Seq<char>| #[trigger] named_among(before, other) implies named_among(
            names@,
            other,
        ) by {
            let j = choose|j: int| 0 <= j < before.len() && (#[trigger] before[j])@ == other;
            if j < at {
                assert(names@[j]@ == other);
            } else {
                assert(names@[j + 1]@ == other);
            }
        }
        if no_name_twice(before) && !named_among(before, it) {
            assert forall|i: int, j: int| 0 <= i < j < names@.len() implies (
            #[trigger] names@[i])@ != (#[trigger] names@[j])@ by {
                let x = if i < at {
                    i
                } else {
                    i - 1
                };
                let y = if j < at {
                    j
                } else {
                    j - 1
                };
                if i != at {
                    assert(before[x]@ == names@[i]@);
                }
                if j != at {
                    assert(before[y]@ == names@[j]@);
                }
            }
        }
    }
}

/// Whether no name is there twice.
pub open spec fn no_name_twice(names: Seq<String>) -> bool {
    forall|i: int, j: int|
        0 <= i < j < names.len() ==> (#[trigger] names[i])@ != (#[trigger] names[j])@
}

/// Whether a name is among these.
pub open spec fn named_among(names: Seq<String>, name: Seq<char>) -> bool {
    exists|i: int| 0 <= i < names.len() && (#[trigger] names[i])@ == name
}

/// The collections' names in order.
pub fn sorted_names(catalog: &Catalog) -> (r: Vec<String>)
    ensures
        r@.len() == catalog@.len(),
        forall|i: int| 0 <= i < r@.len() ==> exists_in(catalog@, (#[trigger] r@[i])@),
        forall|i: int| 0 <= i < catalog@.len() ==> named_among(r@, (#[trigger] catalog@[i]).name),
        names_distinct(catalog@) ==> no_name_twice(r@),
        names_ascending(texts(r@)),
        forall|measure: spec_fn(Seq<char>) -> nat| #[trigger]
            total(texts(r@), measure) == total(listed_names(catalog@), measure),
{
    let all = catalog.names();
    let mut names: Vec<String> = Vec::new();
    let n: usize = all.len();
    for i in 0..n
        invariant
            n == all@.len() == catalog@.len(),
            names@.len() == i,
            forall|j: int| 0 <= j < all@.len() ==> (#[trigger] all@[j])@ == catalog@[j].name,
            forall|j: int| 0 <= j < names@.len() ==> exists_in(catalog@, (#[trigger] names@[j])@),
            forall|j: int| 0 <= j < i ==> named_among(names@, (#[trigger] catalog@[j]).name),
            names_distinct(catalog@) ==> no_name_twice(names@),
            names_ascending(texts(names@)),
            forall|measure: spec_fn(Seq<char>) -> nat| #[trigger]
                total(texts(names@), measure) == total(
                    listed_names(catalog@).take(i as int),
                    measure,
                ),
            forall|j: int| 0 <= j < names@.len() ==> name_before(catalog@, i as int, (#[trigger] names@[j])@),
    {
        let ghost before = names@;
        let name = copy_text(all[i].as_str());
        proof {
            crate::catalog::lemma_position(catalog@, name@);
            assert(exists_in(catalog@, name@)) by {
                assert(catalog@[i as int].name == name@);
            }
        }
        let ghost it = name@;
        proof {
            if named_among(before, it) {
                let k = choose|k: int| 0 <= k < before.len() && (#[trigger] before[k])@ == it;
                assert(name_before(catalog@, i as int, before[k]@));
                assert(catalog@[i as int].name == it);
            }
        }
        insert_name(&mut names, name);
        proof {
            let more = listed_names(catalog@).take(i + 1);
            assert(more.drop_last() =~= listed_names(catalog@).take(i as int));
            assert(more.last() == it);
            assert forall|measure: spec_fn(Seq<char>) -> nat| #[trigger]
                total(texts(names@), measure) == total(more, measure) by {
                assert(total(texts(before), measure) == total(more.drop_last(), measure));
            }
            assert forall|j: int| 0 <= j < names@.len() implies exists_in(
                catalog@,
                (#[trigger] names@[j])@,
            ) by {
                if names@[j]@ != it {
                    assert(named_among(before, names@[j]@));
                    let k = choose|k: int|
                        0 <= k < before.len() && (#[trigger] before[k])@ == names@[j]@;
                    assert(exists_in(catalog@, before[k]@));
                }
            }
            assert forall|j: int| 0 <= j < names@.len() implies name_before(
                catalog@,
                i + 1,
                (#[trigger] names@[j])@,
            ) by {
                if names@[j]@ == it {
                    assert(catalog@[i as int].name == it);
                } else {
                    let k = choose|k: int|
                        0 <= k < before.len() && (#[trigger] before[k])@ == names@[j]@;
                    assert(name_before(catalog@, i as int, before[k]@));
                }
            }
        }
    }
    assert(listed_names(catalog@).take(n as int) =~= listed_names(catalog@));
    names
}

/// Whether one of the first `n` collections has this name.
spec fn name_before(list: Seq<CollectionModel>, n: int, name: Seq<char>) -> bool {
    exists|j: int| 0 <= j < n && (#[trigger] list[j]).name == name
}

/// The owners once the header, the catalog's pages and the free list are
/// claimed, no two of which share a page.
pub open spec fn fixed_once(
    catalog: Seq<PageId>,
    free: Seq<PageId>,
    page_count: int,
    owners: Seq<Option<String>>,
) -> bool {
    &&& catalog.no_duplicates()
    &&& free.no_duplicates()
    &&& forall|p: PageId| #[trigger]
        catalog.contains(p) ==> 0 < p < page_count && !free.contains(p)
    &&& forall|p: PageId| #[trigger] free.contains(p) ==> 0 < p < page_count
    &&& forall|p: PageId|
        p < page_count ==> ((#[trigger] owners[p as int]) is Some <==> p == 0 || catalog.contains(p)
            || free.contains(p))
}

proof fn lemma_fixed_once(
    headed: Seq<Option<String>>,
    listed: Seq<Option<String>>,
    owners: Seq<Option<String>>,
    catalog: Seq<PageId>,
    free: Seq<PageId>,
    page_count: int,
)
    requires
        headed.len() == page_count,
        page_count > 0,
        forall|p: PageId| p < page_count ==> ((#[trigger] headed[p as int]) is Some <==> p == 0),
        claimable(headed, catalog),
        claimed(headed, listed, catalog),
        claimable(listed, free),
        claimed(listed, owners, free),
    ensures
        fixed_once(catalog, free, page_count, owners),
{
    assert forall|p: PageId| #[trigger] catalog.contains(p) implies 0 < p < page_count
        && !free.contains(p) by {
        let i = choose|i: int| 0 <= i < catalog.len() && catalog[i] == p;
        assert(unowned(headed, catalog[i]));
        assert(headed[p as int] is None);
        assert(listed[p as int] is Some);
        if free.contains(p) {
            let j = choose|j: int| 0 <= j < free.len() && free[j] == p;
            assert(unowned(listed, free[j]));
        }
    }
    assert forall|p: PageId| #[trigger] free.contains(p) implies 0 < p < page_count by {
        let j = choose|j: int| 0 <= j < free.len() && free[j] == p;
        assert(unowned(listed, free[j]));
        assert(headed[0u64 as int] is Some);
        assert(listed[0u64 as int] is Some);
    }
    assert forall|p: PageId| p < page_count implies ((#[trigger] owners[p as int]) is Some <==> p
        == 0 || catalog.contains(p) || free.contains(p)) by {
        assert(listed[p as int] is Some <==> headed[p as int] is Some || catalog.contains(p));
        assert(headed[p as int] is Some <==> p == 0);
    }
}

/// What is said of a catalog that can't be read.
pub open spec fn catalog_text(why: Seq<char>) -> Seq<char> {
    "the catalog: "@ + why
}

/// Whether this is said of the pages that belong to no collection.
pub open spec fn fixed_problem(
    pages: Map<PageId, Seq<u8>>,
    free: IoResult<Vec<PageId>>,
    text: Seq<char>,
) -> bool {
    ||| some_claim_problem("the header"@, text)
    ||| linked(pages) matches Some(ids) && claim_problem(ids, "the catalog"@, text)
    ||| exists|why: Seq<char>| text == #[trigger] catalog_text(why)
    ||| match free {
        Ok(more) => claim_problem(more@, "the free list"@, text),
        Err(e) => text == e.message@,
    }
}

/// What a check of the header, the catalog and the free list finds.
fn check_fixed<S: PageStore>(store: &S, page_count: usize, free: &IoResult<Vec<PageId>>) -> (check:
    Check)
    requires
        store.wf(),
    ensures
        check.owners@.len() == page_count,
        check.problems@.len() == 0 ==> page_count > 0 && (free matches Ok(more) && (linked(
            store.pages(),
        ) matches Some(ids) && fixed_once(ids, more@, page_count as int, check.owners@))),
        store.reliable() && has_chain(store.pages()) && (free matches Ok(more) && free_apart(
            store.pages(),
            more@,
            page_count as int,
        )) ==> {
            &&& check.problems@.len() == 0
            &&& forall|p: PageId|
                p < page_count ==> ((#[trigger] check.owners@[p as int]) is Some <==> p == 0
                    || chain(store.pages()).contains(p) || free->Ok_0@.contains(p))
        },
        noted(
            seq![],
            check.problems@,
            |text: Seq<char>| fixed_problem(store.pages(), *free, text),
        ),
{
    let mut check = Check::new(page_count);
    let ghost none: Seq<String> = seq![];
    let ghost kind = |text: Seq<char>| fixed_problem(store.pages(), *free, text);
    let ghost unclaimed_yet = check.owners@;
    check.claim(0, "the header");
    proof {
        if !unowned(unclaimed_yet, 0) {
            assert(unclaimed(0, seq![], "the header"@, check.problems@.last()@));
        }
        assert(noted(none, check.problems@, kind));
    }
    let ghost headed = check.owners@;
    let ghost right = store.reliable() && has_chain(store.pages()) && (free matches Ok(more)
        && free_apart(store.pages(), more@, page_count as int));
    proof {
        if right {
            lemma_catalog_pages(store.pages());
            let ids = chain(store.pages());
            assert forall|i: int| 0 <= i < ids.len() implies unowned(headed, #[trigger] ids[i]) by {
                assert(ids.contains(ids[i]));
                assert(store.pages().dom().contains(ids[i]));
            }
        }
    }
    match Catalog::pages(store) {
        Ok(pages) => {
            check.claim_all(&pages, "the catalog");
            assert(noted(none, check.problems@, kind));
            let ghost listed = check.owners@;
            match free {
                Ok(more) => {
                    proof {
                        if right {
                            assert forall|i: int| 0 <= i < more@.len() implies unowned(
                                listed,
                                #[trigger] more@[i],
                            ) by {
                                assert(!pages@.contains(more@[i]));
                                assert(listed[more@[i] as int] is Some <==> headed[more@[i] as int] is Some
                                    || pages@.contains(more@[i]));
                            }
                        }
                    }
                    check.claim_all(more, "the free list");
                    proof {
                        if right {
                            assert forall|p: PageId| p < page_count implies ((
                            #[trigger] check.owners@[p as int]) is Some <==> p == 0
                                || pages@.contains(p) || more@.contains(p)) by {
                                assert(listed[p as int] is Some <==> headed[p as int] is Some
                                    || pages@.contains(p));
                            }
                        }
                    }
                    proof {
                        if check.problems@.len() == 0 {
                            assert(claimable(headed, pages@));
                            assert(claimable(listed, more@));
                            lemma_fixed_once(
                                headed,
                                listed,
                                check.owners@,
                                pages@,
                                more@,
                                page_count as int,
                            );
                        }
                    }
                },
                Err(e) => {
                    check.problem(copy_text(e.message.as_str()));
                },
            }
        },
        Err(e) => {
            let message = join(&["the catalog: ", e.message.as_str()]);
            proof {
                reveal_with_fuel(joined, 3);
                assert(message@ =~= catalog_text(e.message@));
            }
            check.problem(message);
            assert(noted(none, check.problems@, kind));
            match free {
                Ok(more) => {
                    check.claim_all(more, "the free list");
                },
                Err(e) => {
                    check.problem(copy_text(e.message.as_str()));
                },
            }
        },
    }
    check
}

/// What owns the pages that belong to no collection.
spec fn fixed_owned(
    pages: Map<PageId, Seq<u8>>,
    free: Seq<PageId>,
    page_count: int,
    owners: Seq<Option<String>>,
) -> bool {
    &&& owners.len() == page_count
    &&& forall|p: PageId|
        p < page_count ==> ((#[trigger] owners[p as int]) is Some <==> p == 0 || chain(
            pages,
        ).contains(p) || free.contains(p))
}

/// Whether a page belongs to one of the first `n` collections named.
spec fn used_by_first(
    pages: Map<PageId, Seq<u8>>,
    list: Seq<CollectionModel>,
    names: Seq<String>,
    n: int,
    p: PageId,
) -> bool {
    exists|j: int|
        0 <= j < n && used_by(pages, list[position(list, (#[trigger] names[j])@) as int], p)
}

/// The owners once the first `n` collections named are claimed.
spec fn all_owned(
    pages: Map<PageId, Seq<u8>>,
    list: Seq<CollectionModel>,
    names: Seq<String>,
    n: int,
    fixed: Seq<Option<String>>,
    owners: Seq<Option<String>>,
) -> bool {
    &&& owners.len() == fixed.len()
    &&& forall|p: PageId|
        p < fixed.len() ==> ((#[trigger] owners[p as int]) is Some <==> fixed[p as int] is Some
            || used_by_first(pages, list, names, n, p))
}

/// The next collection's pages can be claimed.
proof fn lemma_can_claim(
    pages: Map<PageId, Seq<u8>>,
    list: Seq<CollectionModel>,
    own: Owners,
    free: Seq<PageId>,
    page_count: int,
    names: Seq<String>,
    i: int,
    fixed: Seq<Option<String>>,
    owners: Seq<Option<String>>,
)
    requires
        sound_with(pages, list, own),
        consistent(pages, list, free, page_count),
        no_name_twice(names),
        0 <= i < names.len(),
        forall|j: int| 0 <= j < names.len() ==> exists_in(list, (#[trigger] names[j])@),
        fixed_owned(pages, free, page_count, fixed),
        all_owned(pages, list, names, i, fixed, owners),
    ensures
        whole_before(pages, list[position(list, names[i]@) as int], owners),
{
    let at = position(list, names[i]@) as int;
    assert(exists_in(list, names[i]@));
    crate::catalog::lemma_position(list, names[i]@);
    let c = list[at];
    assert(collection_sound(pages, own, c));
    assert(roots_apart(c)) by {
        reveal(roots_distinct);
        assert forall|a: int, b: int| 0 <= a < b < roots_of(c).len() implies #[trigger] roots_of(c)[a]
            != #[trigger] roots_of(c)[b] by {
            if roots_of(list[at])[a] == roots_of(list[at])[b] {
            }
        }
    }
    assert forall|p: PageId| #[trigger] used_by(pages, c, p) implies unowned(owners, p) by {
        lemma_used(pages, own, c, roots_of(c).len() as int, p);
        assert(pages.dom().contains(p));
        assert(!chain(pages).contains(p)) by {
            if chain(pages).contains(p) {
                assert(own[p] == Owner::Catalog);
            }
        }
        assert(!free.contains(p)) by {
            if free.contains(p) {
                let k = choose|k: int| 0 <= k < free.len() && free[k] == p;
                assert(!pages.dom().contains(free[k]));
            }
        }
        assert(fixed[p as int] is None);
        if used_by_first(pages, list, names, i, p) {
            let j = choose|j: int|
                0 <= j < i && used_by(pages, list[position(list, (#[trigger] names[j])@) as int], p);
            assert(exists_in(list, names[j]@));
            crate::catalog::lemma_position(list, names[j]@);
            lemma_used_once(pages, list, own, at, position(list, names[j]@) as int, p);
            assert(names[j]@ == names[i]@);
        }
        assert(owners[p as int] is None);
    }
    assert(awaiting(pages, own, c, owners));
}

/// One more collection's pages are claimed.
proof fn lemma_all_owned(
    pages: Map<PageId, Seq<u8>>,
    list: Seq<CollectionModel>,
    names: Seq<String>,
    i: int,
    fixed: Seq<Option<String>>,
    before: Seq<Option<String>>,
    after: Seq<Option<String>>,
)
    requires
        0 <= i < names.len(),
        all_owned(pages, list, names, i, fixed, before),
        ({
            let c = list[position(list, names[i]@) as int];
            owned_now(before, after, pages, c, roots_of(c).len() as int)
        }),
    ensures
        all_owned(pages, list, names, i + 1, fixed, after),
{
    let c = list[position(list, names[i]@) as int];
    assert forall|p: PageId| p < fixed.len() implies ((#[trigger] after[p as int]) is Some
        <==> fixed[p as int] is Some || used_by_first(pages, list, names, i + 1, p)) by {
        assert(before[p as int] is Some <==> fixed[p as int] is Some || used_by_first(
            pages,
            list,
            names,
            i,
            p,
        ));
        assert(used_by_first(pages, list, names, i + 1, p) <==> used_by_first(
            pages,
            list,
            names,
            i,
            p,
        ) || used_by(pages, c, p)) by {
            if used_by_first(pages, list, names, i + 1, p) {
                let j = choose|j: int|
                    0 <= j < i + 1 && used_by(
                        pages,
                        list[position(list, (#[trigger] names[j])@) as int],
                        p,
                    );
                if j < i {
                    assert(used_by_first(pages, list, names, i, p));
                }
            }
            if used_by_first(pages, list, names, i, p) {
                let j = choose|j: int|
                    0 <= j < i && used_by(
                        pages,
                        list[position(list, (#[trigger] names[j])@) as int],
                        p,
                    );
                assert(0 <= j < i + 1);
            }
        }
    }
}

/// Once every collection's pages are claimed, all are.
proof fn lemma_no_leak(
    pages: Map<PageId, Seq<u8>>,
    list: Seq<CollectionModel>,
    free: Seq<PageId>,
    page_count: int,
    names: Seq<String>,
    fixed: Seq<Option<String>>,
    owners: Seq<Option<String>>,
)
    requires
        consistent(pages, list, free, page_count),
        names_distinct(list),
        forall|i: int| 0 <= i < list.len() ==> named_among(names, (#[trigger] list[i]).name),
        fixed_owned(pages, free, page_count, fixed),
        all_owned(pages, list, names, names.len() as int, fixed, owners),
    ensures
        forall|p: PageId| p < page_count ==> (#[trigger] owners[p as int]) is Some,
{
    assert forall|p: PageId| p < page_count implies (#[trigger] owners[p as int]) is Some by {
        assert(fixed[p as int] is Some <==> p == 0 || chain(pages).contains(p) || free.contains(p));
        if p != 0 && !free.contains(p) && !chain(pages).contains(p) {
            let i = choose|i: int| 0 <= i < list.len() && used_by(pages, #[trigger] list[i], p);
            assert(named_among(names, list[i].name));
            let j = choose|j: int|
                0 <= j < names.len() && (#[trigger] names[j])@ == list[i].name;
            crate::catalog::lemma_position(list, names[j]@);
            let at = position(list, names[j]@) as int;
            assert(list[at].name == list[i].name);
            assert(at == i);
            assert(used_by_first(pages, list, names, names.len() as int, p));
        }
    }
}

/// Whether the first `n` collections named are as they should be, and their
/// pages claimed: each found in one collection only, in one part of it, and
/// owned by nothing else.
spec fn all_taken(
    pages: Map<PageId, Seq<u8>>,
    list: Seq<CollectionModel>,
    names: Seq<String>,
    n: int,
    fixed: Seq<Option<String>>,
    owners: Seq<Option<String>>,
) -> bool {
    &&& owners.len() == fixed.len()
    &&& forall|p: PageId|
        p < fixed.len() ==> ((#[trigger] owners[p as int]) is Some <==> fixed[p as int] is Some
            || part_of_named(pages, list, names, n, p))
    &&& forall|j: int, p: PageId|
        0 <= j < n && #[trigger] part_of(pages, named(list, names, j), p) ==> unowned(fixed, p)
    &&& forall|j: int, k: int, p: PageId|
        0 <= j < n && 0 <= k < n && #[trigger] part_of(pages, named(list, names, j), p)
            && #[trigger] part_of(pages, named(list, names, k), p) ==> j == k
    &&& forall|j: int| 0 <= j < n ==> part_alone(pages, #[trigger] named(list, names, j))
}

/// The collection with a name.
spec fn named(list: Seq<CollectionModel>, names: Seq<String>, j: int) -> CollectionModel {
    list[position(list, names[j]@) as int]
}

/// Whether a page belongs to a part of one of the first `n` collections named.
spec fn part_of_named(
    pages: Map<PageId, Seq<u8>>,
    list: Seq<CollectionModel>,
    names: Seq<String>,
    n: int,
    p: PageId,
) -> bool {
    exists|j: int| 0 <= j < n && #[trigger] part_of(pages, named(list, names, j), p)
}

/// Whether a collection is as it should be, and none of its pages is in two of
/// its parts.
spec fn part_alone(pages: Map<PageId, Seq<u8>>, c: CollectionModel) -> bool {
    &&& parts_readable(pages, c)
    &&& exists|n: int| #[trigger] collection_right(pages, c, n)
    &&& forall|a: int, b: int, p: PageId|
        0 <= a < 3 + c.indexes.len() && 0 <= b < 3 + c.indexes.len() && #[trigger] part_page(
            pages,
            c,
            a,
            p,
        ) && #[trigger] part_page(pages, c, b, p) ==> a == b
}

/// One more collection's pages are claimed.
proof fn lemma_all_taken(
    pages: Map<PageId, Seq<u8>>,
    list: Seq<CollectionModel>,
    names: Seq<String>,
    i: int,
    fixed: Seq<Option<String>>,
    before: Seq<Option<String>>,
    after: Seq<Option<String>>,
)
    requires
        0 <= i < names.len(),
        all_taken(pages, list, names, i, fixed, before),
        parts_readable(pages, named(list, names, i)),
        exists|n: int| #[trigger] collection_right(pages, named(list, names, i), n),
        first_taken(
            before,
            after,
            pages,
            named(list, names, i),
            3 + named(list, names, i).indexes.len() as int,
        ),
    ensures
        all_taken(pages, list, names, i + 1, fixed, after),
{
    let c = named(list, names, i);
    assert forall|p: PageId| #[trigger] part_of(pages, c, p) implies unowned(before, p) && unowned(
        fixed,
        p,
    ) && !part_of_named(pages, list, names, i, p) by {
        let part = choose|part: int|
            0 <= part < 3 + c.indexes.len() && #[trigger] part_page(pages, c, part, p);
        assert(unowned(before, p));
        assert(before[p as int] is None);
    }
    assert forall|p: PageId| #[trigger] part_of_named(pages, list, names, i + 1, p)
        <==> part_of_named(pages, list, names, i, p) || part_of(pages, c, p) by {
        if part_of_named(pages, list, names, i + 1, p) {
            let j = choose|j: int|
                0 <= j < i + 1 && #[trigger] part_of(pages, named(list, names, j), p);
            if j < i {
                assert(part_of_named(pages, list, names, i, p));
            }
        }
        if part_of_named(pages, list, names, i, p) {
            let j = choose|j: int|
                0 <= j < i && #[trigger] part_of(pages, named(list, names, j), p);
            assert(0 <= j < i + 1 && part_of(pages, named(list, names, j), p));
        }
    }
    assert forall|p: PageId| p < fixed.len() implies ((#[trigger] after[p as int]) is Some
        <==> fixed[p as int] is Some || part_of_named(pages, list, names, i + 1, p)) by {
        assert(before[p as int] is Some <==> fixed[p as int] is Some || part_of_named(
            pages,
            list,
            names,
            i,
            p,
        ));
        assert(part_of(pages, c, p) == part_of_first(
            pages,
            c,
            3 + c.indexes.len() as int,
            p,
        ));
    }
    assert forall|j: int, k: int, p: PageId|
        0 <= j < i + 1 && 0 <= k < i + 1 && #[trigger] part_of(pages, named(list, names, j), p)
            && #[trigger] part_of(pages, named(list, names, k), p) implies j == k by {
        if j == i && k < i {
            assert(part_of_named(pages, list, names, i, p));
        }
        if k == i && j < i {
            assert(part_of_named(pages, list, names, i, p));
        }
    }
    assert(part_alone(pages, c));
}

/// Whether nothing is wrong with a file: every page of it has exactly one
/// place, every part of every collection can be read, and every collection is
/// as it should be.
pub open spec fn file_right(
    pages: Map<PageId, Seq<u8>>,
    list: Seq<CollectionModel>,
    catalog: Seq<PageId>,
    free: Seq<PageId>,
    page_count: int,
) -> bool {
    &&& owned_once(pages, list, catalog, free, page_count)
    &&& forall|i: int|
        0 <= i < list.len() ==> parts_readable(pages, #[trigger] list[i]) && exists|n: int|
            #[trigger] collection_right(pages, list[i], n)
}

/// Once every collection's pages are claimed and none is left over, every page
/// has exactly one place.
proof fn lemma_owned_once(
    pages: Map<PageId, Seq<u8>>,
    list: Seq<CollectionModel>,
    catalog: Seq<PageId>,
    free: Seq<PageId>,
    page_count: int,
    names: Seq<String>,
    fixed: Seq<Option<String>>,
    owners: Seq<Option<String>>,
)
    requires
        names_distinct(list),
        names.len() == list.len(),
        forall|j: int| 0 <= j < names.len() ==> exists_in(list, (#[trigger] names[j])@),
        forall|i: int| 0 <= i < list.len() ==> named_among(names, (#[trigger] list[i]).name),
        fixed.len() == page_count,
        fixed_once(catalog, free, page_count, fixed),
        all_taken(pages, list, names, names.len() as int, fixed, owners),
        forall|p: PageId| p < page_count ==> (#[trigger] owners[p as int]) is Some,
    ensures
        file_right(pages, list, catalog, free, page_count),
{
    assert forall|i: int| 0 <= i < list.len() implies exists|j: int|
        0 <= j < names.len() && #[trigger] named(list, names, j) == #[trigger] list[i]
            && position(list, names[j]@) == i by {
        assert(named_among(names, list[i].name));
        let j = choose|j: int| 0 <= j < names.len() && (#[trigger] names[j])@ == list[i].name;
        crate::catalog::lemma_position(list, names[j]@);
        let at = position(list, names[j]@) as int;
        assert(list[at].name == list[i].name);
        assert(at == i);
        assert(named(list, names, j) == list[i]);
    }
    assert forall|i: int, p: PageId|
        0 <= i < list.len() && #[trigger] part_of(pages, list[i], p) implies 0 < p < page_count
        && !catalog.contains(p) && !free.contains(p) by {
        let j = choose|j: int|
            0 <= j < names.len() && #[trigger] named(list, names, j) == list[i] && position(
                list,
                names[j]@,
            ) == i;
        assert(part_of(pages, named(list, names, j), p));
        assert(unowned(fixed, p));
        assert(fixed[p as int] is None);
    }
    assert forall|i: int, j: int, p: PageId|
        0 <= i < list.len() && 0 <= j < list.len() && #[trigger] part_of(pages, list[i], p)
            && #[trigger] part_of(pages, list[j], p) implies i == j by {
        let a = choose|a: int|
            0 <= a < names.len() && #[trigger] named(list, names, a) == list[i] && position(
                list,
                names[a]@,
            ) == i;
        let b = choose|b: int|
            0 <= b < names.len() && #[trigger] named(list, names, b) == list[j] && position(
                list,
                names[b]@,
            ) == j;
        assert(part_of(pages, named(list, names, a), p));
        assert(part_of(pages, named(list, names, b), p));
    }
    assert forall|i: int| 0 <= i < list.len() implies part_alone(pages, #[trigger] list[i]) by {
        let j = choose|j: int|
            0 <= j < names.len() && #[trigger] named(list, names, j) == list[i] && position(
                list,
                names[j]@,
            ) == i;
        assert(part_alone(pages, named(list, names, j)));
    }
    assert forall|p: PageId|
        0 < p < page_count && !#[trigger] free.contains(p) implies catalog.contains(p) || exists|
        i: int,
    |
        0 <= i < list.len() && part_of(pages, #[trigger] list[i], p) by {
        assert(owners[p as int] is Some);
        if !catalog.contains(p) {
            assert(fixed[p as int] is None);
            let j = choose|j: int|
                0 <= j < names.len() && #[trigger] part_of(pages, named(list, names, j), p);
            assert(exists_in(list, names[j]@));
            crate::catalog::lemma_position(list, names[j]@);
            let i = position(list, names[j]@) as int;
            assert(part_of(pages, list[i], p));
        }
    }
}

/// A count, as far as it can go.
pub open spec fn capped(n: nat) -> nat {
    if n > usize::MAX {
        usize::MAX as nat
    } else {
        n
    }
}

/// What is said of a collection that can't be read.
pub open spec fn broken_text(name: Seq<char>, why: Seq<char>) -> Seq<char> {
    "collection "@ + quoted_text(name) + ": "@ + why
}

/// What is said of a page that nothing owns.
pub open spec fn leaked_text(page: nat) -> Seq<char> {
    "page "@ + decimal(page) + " belongs to nothing (leaked)"@
}

/// Whether this is said of a collection, or why it can't be read.
pub open spec fn listed_problem(
    pages: Map<PageId, Seq<u8>>,
    reliable: bool,
    c: CollectionModel,
    text: Seq<char>,
) -> bool {
    ||| collection_problem(pages, reliable, c, c.name, text)
    ||| exists|why: Seq<char>| text == #[trigger] broken_text(c.name, why)
}

/// Whether this is said of a file: of a page that belongs to no collection, of
/// a collection, or of a page that nothing owns.
pub open spec fn file_problem(
    pages: Map<PageId, Seq<u8>>,
    reliable: bool,
    list: Seq<CollectionModel>,
    free: IoResult<Vec<PageId>>,
    page_count: int,
    text: Seq<char>,
) -> bool {
    ||| fixed_problem(pages, free, text)
    ||| exists|i: int|
        0 <= i < list.len() && listed_problem(pages, reliable, #[trigger] list[i], text)
    ||| exists|p: nat| p < page_count && text == #[trigger] leaked_text(p)
}

/// What is said of one collection is said of the file.
proof fn lemma_collection_noted(
    before: Seq<String>,
    after: Seq<String>,
    pages: Map<PageId, Seq<u8>>,
    reliable: bool,
    list: Seq<CollectionModel>,
    name: Seq<char>,
)
    requires
        exists_in(list, name),
        noted(
            before,
            after,
            |text: Seq<char>|
                collection_problem(
                    pages,
                    reliable,
                    list[position(list, name) as int],
                    name,
                    text,
                ),
        ),
    ensures
        noted(
            before,
            after,
            |text: Seq<char>|
                exists|i: int|
                    0 <= i < list.len() && listed_problem(pages, reliable, #[trigger] list[i], text),
        ),
{
    crate::catalog::lemma_position(list, name);
    let at = position(list, name) as int;
    assert forall|k: int| before.len() <= k < after.len() implies exists|i: int|
        0 <= i < list.len() && listed_problem(
            pages,
            reliable,
            #[trigger] list[i],
            (#[trigger] after[k])@,
        ) by {
        assert(collection_problem(pages, reliable, list[at], name, after[k]@));
        assert(listed_problem(pages, reliable, list[at], after[k]@));
    }
}

/// Reads everything and checks that it's consistent: every page belongs to
/// exactly one thing, every document is readable and stored under its own
/// id, every index holds exactly the documents' keys, in order, and a unique
/// index no two equal values. Problems are collected: a damaged index doesn't
/// stop the rest from being checked. `page_count` is the number of pages in
/// the file, the header included, and `free` what was read of its free list.
pub fn check<S: PageStore>(
    catalog: &Catalog,
    store: &S,
    page_count: usize,
    free: &IoResult<Vec<PageId>>,
) -> (r: CheckReport)
    requires
        store.wf(),
    ensures
        r.collections == catalog@.len(),
        r.pages == page_count,
        r.problems@.len() == 0 ==> page_count > 0 && (free matches Ok(more) && (linked(
            store.pages(),
        ) matches Some(ids) && (names_distinct(catalog@) ==> file_right(
            store.pages(),
            catalog@,
            ids,
            more@,
            page_count as int,
        )))),
        store.reliable() && (free matches Ok(more) && consistent(
            store.pages(),
            catalog@,
            more@,
            page_count as int,
        )) ==> r.problems@.len() == 0 && r.documents == capped(
            documents_in(store.pages(), catalog@, catalog@.len() as int),
        ),
        forall|i: int|
            0 <= i < r.problems@.len() ==> file_problem(
                store.pages(),
                store.reliable(),
                catalog@,
                *free,
                page_count as int,
                (#[trigger] r.problems@[i])@,
            ),
{
    let mut check = check_fixed(store, page_count, free);
    let ghost pages = store.pages();
    let ghost none: Seq<String> = seq![];
    let ghost kind = |text: Seq<char>|
        file_problem(pages, store.reliable(), catalog@, *free, page_count as int, text);
    assert(noted(none, check.problems@, kind));
    let ghost fixed = check.owners@;
    let ghost fine_start = check.problems@.len() == 0;
    let ghost right = store.reliable() && (free matches Ok(more) && consistent(
        pages,
        catalog@,
        more@,
        page_count as int,
    ));
    let ghost own = choose|own: Owners| sound_with(pages, catalog@, own);
    let names = sorted_names(catalog);
    let n: usize = names.len();
    let mut documents: usize = 0;
    let ghost measure = documents_of(pages, catalog@);
    for i in 0..n
        invariant
            n == names@.len() == catalog@.len(),
            store.wf(),
            kind == (|text: Seq<char>|
                file_problem(pages, store.reliable(), catalog@, *free, page_count as int, text)),
            noted(none, check.problems@, kind),
            measure == documents_of(pages, catalog@),
            right ==> documents == capped(total(texts(names@).take(i as int), measure)),
            check.owners@.len() == page_count,
            forall|j: int| 0 <= j < names@.len() ==> exists_in(catalog@, (#[trigger] names@[j])@),
            pages == store.pages(),
            right ==> store.reliable() && (free matches Ok(more) && consistent(
                pages,
                catalog@,
                more@,
                page_count as int,
            )) && sound_with(pages, catalog@, own) && no_name_twice(names@),
            right ==> fixed_owned(pages, free->Ok_0@, page_count as int, fixed),
            right ==> check.problems@.len() == 0 && all_owned(
                pages,
                catalog@,
                names@,
                i as int,
                fixed,
                check.owners@,
            ),
            check.problems@.len() == 0 ==> fine_start && all_taken(
                pages,
                catalog@,
                names@,
                i as int,
                fixed,
                check.owners@,
            ),
            fine_start ==> page_count > 0 && (free matches Ok(more) && (linked(
                pages,
            ) matches Some(ids) && fixed_once(ids, more@, page_count as int, fixed))),
    {
        let ghost clean = check.problems@.len() == 0;
        let ghost before = check.owners@;
        let ghost said = check.problems@;
        assert(exists_in(catalog@, names@[i as int]@));
        proof {
            if right {
                lemma_can_claim(
                    pages,
                    catalog@,
                    own,
                    free->Ok_0@,
                    page_count as int,
                    names@,
                    i as int,
                    fixed,
                    before,
                );
            }
        }
        match check_collection(&mut check, catalog, store, names[i].as_str()) {
            Ok(found) => {
                documents = documents.saturating_add(found);
                proof {
                    lemma_collection_noted(
                        said,
                        check.problems@,
                        pages,
                        store.reliable(),
                        catalog@,
                        names@[i as int]@,
                    );
                    if clean && check.problems@.len() == 0 {
                        assert(collection_right(
                            pages,
                            named(catalog@, names@, i as int),
                            found as int,
                        ));
                    }
                }
            },
            Err(e) => {
                let shown = quoted(names[i].as_str());
                let message = join(&["collection ", shown.as_str(), ": ", e.message.as_str()]);
                proof {
                    lemma_collection_noted(
                        said,
                        check.problems@,
                        pages,
                        store.reliable(),
                        catalog@,
                        names@[i as int]@,
                    );
                    reveal_with_fuel(joined, 5);
                    assert(message@ =~= broken_text(names@[i as int]@, e.message@));
                    crate::catalog::lemma_position(catalog@, names@[i as int]@);
                    let at = position(catalog@, names@[i as int]@) as int;
                    assert(listed_problem(pages, store.reliable(), catalog@[at], message@));
                }
                check.problem(message);
            },
        }
        proof {
            if clean && check.problems@.len() == 0 {
                lemma_all_taken(
                    pages,
                    catalog@,
                    names@,
                    i as int,
                    fixed,
                    before,
                    check.owners@,
                );
            }
        }
        proof {
            if right {
                let more = texts(names@).take(i + 1);
                assert(more.drop_last() =~= texts(names@).take(i as int));
                assert(more.last() == names@[i as int]@);
                lemma_all_owned(
                    pages,
                    catalog@,
                    names@,
                    i as int,
                    fixed,
                    before,
                    check.owners@,
                );
            }
        }
    }
    proof {
        if right {
            assert(texts(names@).take(n as int) =~= texts(names@));
            assert(listed_names(catalog@).take(n as int) =~= listed_names(catalog@));
            lemma_documents_in(pages, catalog@, n as int);
            assert(total(texts(names@), measure) == total(listed_names(catalog@), measure));
            lemma_no_leak(
                pages,
                catalog@,
                free->Ok_0@,
                page_count as int,
                names@,
                fixed,
                check.owners@,
            );
        }
    }
    let ghost owners = check.owners@;
    for page in 0..page_count
        invariant
            check.owners@ == owners,
            owners.len() == page_count,
            kind == (|text: Seq<char>|
                file_problem(pages, store.reliable(), catalog@, *free, page_count as int, text)),
            noted(none, check.problems@, kind),
            right ==> check.problems@.len() == 0 && forall|p: PageId|
                p < page_count ==> (#[trigger] owners[p as int]) is Some,
            check.problems@.len() == 0 ==> fine_start && all_taken(
                pages,
                catalog@,
                names@,
                names@.len() as int,
                fixed,
                owners,
            ),
            check.problems@.len() == 0 ==> forall|p: PageId|
                p < page ==> (#[trigger] owners[p as int]) is Some,
    {
        assert(right ==> check.owners@[(page as u64) as int] is Some);
        let leaked: bool = match &check.owners[page] {
            Some(_) => false,
            None => true,
        };
        if leaked {
            let number = decimal_text(page as u64);
            let message = join(&["page ", number.as_str(), " belongs to nothing (leaked)"]);
            proof {
                reveal_with_fuel(joined, 4);
                assert(message@ =~= leaked_text(page as nat));
            }
            check.problem(message);
        }
    }
    proof {
        if check.problems@.len() == 0 && names_distinct(catalog@) {
            lemma_owned_once(
                pages,
                catalog@,
                linked(pages)->Some_0,
                free->Ok_0@,
                page_count as int,
                names@,
                fixed,
                owners,
            );
        }
    }
    CheckReport {
        collections: n,
        documents,
        pages: page_count as u64,
        problems: check.problems,
    }
}

} // verus!
