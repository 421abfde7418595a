//! What the benchmark's stores hold and do.

use crate::text::{decimal, decimal_text};
use vstd::prelude::*;

verus! {

/// The document every store holds: a task. Indexed: `tenant`, `created`, and
/// `(status, created)`.
#[derive(Debug, Clone, PartialEq)]
pub struct Task {
    pub status: String,
    pub created: i64,
    pub tenant: String,
    pub title: String,
    pub tries: i64,
    pub tags: Vec<String>,
}

pub type Id = [u8; 16];

/// A store to measure.
pub trait Store {
    fn name(&self) -> &'static str;

    /// One durable, atomic commit.
    fn insert(&mut self, tasks: &[(Id, Task)]);

    /// One durable, atomic commit; each id exists.
    fn update(&mut self, tasks: &[(Id, Task)]);

    /// One durable, atomic commit; each id exists.
    fn delete(&mut self, ids: &[Id]);

    fn get(&self, id: &Id) -> Option<Task>;

    /// How many tasks the tenant has: each read and decoded.
    fn by_tenant(&self, tenant: &str) -> usize;

    /// How many tasks were created in `lo..hi`: each read and decoded.
    fn in_range(&self, lo: i64, hi: i64) -> usize;

    /// `created` of the oldest `limit` tasks with `status`.
    fn oldest(&self, status: &str, limit: usize) -> Vec<i64>;

    /// `created` of the newest `limit` tasks with `status`.
    fn newest(&self, status: &str, limit: usize) -> Vec<i64>;

    /// How many tasks have `tries > n`: no index, every document.
    fn count_tries_above(&self, n: i64) -> usize;

    /// Bytes on disk.
    fn size(&self) -> u64;

    /// Rebuilds the file as small as it gets; `false` if the store can't.
    fn compact(&mut self) -> bool;
}

/// The status of task `i`.
pub open spec fn status_of(i: int) -> Seq<char> {
    if i * 7 % 3 == 0 {
        "Queued"@
    } else if i * 7 % 3 == 1 {
        "Running"@
    } else {
        "Done"@
    }
}

/// `text` again and again.
pub open spec fn repeated(text: Seq<char>, n: nat) -> Seq<char>
    decreases n,
{
    if n == 0 {
        Seq::empty()
    } else {
        repeated(text, (n - 1) as nat) + text
    }
}

/// Task `i` of `n`: every `created` once, but not in insertion order.
pub fn task(i: usize, n: usize) -> (r: Task)
    requires
        n > 0,
        i * 7919 <= usize::MAX,
        n <= i64::MAX,
    ensures
        r.status@ == status_of(i as int),
        r.created == i * 7919 % n as int,
        r.tenant@ == "t"@ + decimal((i * 31 % 100) as nat),
        r.title@ == "Task "@ + decimal(i as nat) + ": "@ + repeated(
            "lorem ipsum "@,
            (1 + i as int % 4) as nat,
        ),
        r.tries == i as int % 10,
        r.tags@.len() == i as int % 3,
        forall|k: int|
            0 <= k < r.tags@.len() ==> (#[trigger] r.tags@[k])@ == "tag"@ + decimal(
                ((i + k) % 20) as nat,
            ),
{
    let status: &str = if i * 7 % 3 == 0 {
        "Queued"
    } else if i * 7 % 3 == 1 {
        "Running"
    } else {
        "Done"
    };
    let tenant = decimal_text((i * 31 % 100) as u64);
    let number = decimal_text(i as u64);
    let mut words = String::new();
    let m: usize = 1 + i % 4;
    proof {
        reveal_strlit("");
    }
    assert(words@ =~= repeated("lorem ipsum "@, 0));
    for k in 0..m
        invariant
            words@ == repeated("lorem ipsum "@, k as nat),
    {
        words.append("lorem ipsum ");
    }
    let mut tags: Vec<String> = Vec::new();
    let t: usize = i % 3;
    for k in 0..t
        invariant
            t == i % 3,
            i * 7919 <= usize::MAX,
            tags@.len() == k,
            forall|j: int|
                0 <= j < k ==> (#[trigger] tags@[j])@ == "tag"@ + decimal(
                    ((i + j) % 20) as nat,
                ),
    {
        let tag = decimal_text(((i + k) % 20) as u64);
        let mut text = String::from_str("tag");
        text.append(tag.as_str());
        tags.push(text);
    }
    let mut tenant_text = String::from_str("t");
    tenant_text.append(tenant.as_str());
    let mut title = String::from_str("Task ");
    title.append(number.as_str());
    title.append(": ");
    title.append(words.as_str());
    Task {
        status: String::from_str(status),
        created: (i * 7919 % n) as i64,
        tenant: tenant_text,
        title,
        tries: (i % 10) as i64,
        tags,
    }
}

/// The next of the generator's states.
pub open spec fn shifted(x: u64) -> u64 {
    let a = x ^ (x << 13);
    let b = a ^ (a >> 7);
    b ^ (b << 17)
}

/// A small deterministic generator, so every store sees the same random
/// picks.
#[derive(Debug)]
pub struct XorShift(pub u64);

impl XorShift {
    /// A number in `0..n`.
    pub fn below(&mut self, n: usize) -> (r: usize)
        requires
            n > 0,
        ensures
            final(self).0 == shifted(old(self).0),
            r == final(self).0 % n as u64,
            r < n,
    {
        self.0 = self.0 ^ (self.0 << 13);
        self.0 = self.0 ^ (self.0 >> 7);
        self.0 = self.0 ^ (self.0 << 17);
        (self.0 % n as u64) as usize
    }
}

} // verus!
