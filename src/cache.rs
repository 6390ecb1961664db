//! The chunk cache: analysis results keyed by conversation and global chunk
//! index, held in one partition per conversation, named by an injective,
//! path-safe escaping of the conversation's name.

use vstd::prelude::*;
use crate::keys::{sanitized, partition_key, lemma_partition_names_one_conversation};
use crate::json::{parsed_json, parse_json};
use crate::batch::PipelineError;

verus! {

/// Relies on the derived `Clone` of `serde_json::Value`: the copy equals its source value.
pub assume_specification[ <serde_json::Value as Clone>::clone ](v: &serde_json::Value) -> (r:
    serde_json::Value)
    ensures
        r == *v,
;

/// One conversation's records, as pairs of global index and result, by
/// strictly ascending index.
struct Partition {
    key: String,
    records: Vec<(usize, serde_json::Value)>,
}

/// An in-memory key-value store from `(conversation, global index)` to an
/// analysis result.
pub struct ChunkCache {
    parts: Vec<Partition>,
}

/// Indices strictly ascend along `rs`.
pub open spec fn ascending(rs: Seq<(usize, serde_json::Value)>) -> bool {
    forall|i: int, j: int| 0 <= i < j < rs.len() ==> #[trigger] rs[i].0 < #[trigger] rs[j].0
}

/// The result that `rs` holds for global index `g`.
pub open spec fn record_at(rs: Seq<(usize, serde_json::Value)>, g: nat) -> Option<serde_json::Value> {
    if exists|i: int| 0 <= i < rs.len() && #[trigger] rs[i].0 == g {
        Some(rs[choose|i: int| 0 <= i < rs.len() && #[trigger] rs[i].0 == g].1)
    } else {
        None
    }
}

/// The results of `rs`, in its order.
pub open spec fn record_values(rs: Seq<(usize, serde_json::Value)>) -> Seq<serde_json::Value> {
    rs.map_values(|e: (usize, serde_json::Value)| e.1)
}

/// In ascending records, the record with index `rs[i].0` is `rs[i]`.
pub proof fn lemma_record_at(rs: Seq<(usize, serde_json::Value)>, i: int)
    requires
        ascending(rs),
        0 <= i < rs.len(),
    ensures
        record_at(rs, rs[i].0 as nat) == Some(rs[i].1),
{
    let g = rs[i].0 as nat;
    assert(rs[i].0 == g);
    let k = choose|k: int| 0 <= k < rs.len() && #[trigger] rs[k].0 == g;
    if k < i {
        assert(rs[k].0 < rs[i].0);
    } else if k > i {
        assert(rs[i].0 < rs[k].0);
    }
}

proof fn lemma_update_record(rs: Seq<(usize, serde_json::Value)>, k: int, g: usize, v: serde_json::Value)
    requires
        ascending(rs),
        0 <= k < rs.len(),
        rs[k].0 == g,
    ensures
        ascending(rs.update(k, (g, v))),
        forall|h: nat| #[trigger] record_at(rs.update(k, (g, v)), h) == if h == g {
            Some(v)
        } else {
            record_at(rs, h)
        },
{
    let t = rs.update(k, (g, v));
    assert(ascending(t)) by {
        assert forall|i: int, j: int| 0 <= i < j < t.len() implies #[trigger] t[i].0 < #[trigger] t[j].0 by {
            assert(rs[i].0 < rs[j].0);
        }
    }
    assert forall|h: nat| #[trigger] record_at(t, h) == if h == g {
        Some(v)
    } else {
        record_at(rs, h)
    } by {
        if h == g {
            lemma_record_at(t, k);
        } else if exists|i: int| 0 <= i < rs.len() && #[trigger] rs[i].0 == h {
            let i = choose|i: int| 0 <= i < rs.len() && #[trigger] rs[i].0 == h;
            lemma_record_at(rs, i);
            lemma_record_at(t, i);
        } else {
            assert forall|i: int| 0 <= i < t.len() implies #[trigger] t[i].0 != h by {
                assert(t[i].0 == rs[i].0);
            }
        }
    }
}

proof fn lemma_insert_record(rs: Seq<(usize, serde_json::Value)>, k: int, g: usize, v: serde_json::Value)
    requires
        ascending(rs),
        0 <= k <= rs.len(),
        forall|j: int| 0 <= j < k ==> #[trigger] rs[j].0 < g,
        k < rs.len() ==> rs[k].0 > g,
    ensures
        ascending(rs.insert(k, (g, v))),
        forall|h: nat| #[trigger] record_at(rs.insert(k, (g, v)), h) == if h == g {
            Some(v)
        } else {
            record_at(rs, h)
        },
{
    let t = rs.insert(k, (g, v));
    assert forall|j: int| 0 <= j < t.len() implies #[trigger] t[j] == if j < k {
        rs[j]
    } else if j == k {
        (g, v)
    } else {
        rs[j - 1]
    } by {}
    assert(ascending(t)) by {
        assert forall|i: int, j: int| 0 <= i < j < t.len() implies #[trigger] t[i].0 < #[trigger] t[j].0 by {
            if i < k && j > k {
                assert(rs[i].0 < g);
                assert(rs[k].0 > g);
                if j - 1 > k {
                    assert(rs[k].0 < rs[j - 1].0);
                }
            } else if i == k && j > k {
                assert(rs[k].0 > g);
                if j - 1 > k {
                    assert(rs[k].0 < rs[j - 1].0);
                }
            } else if i < k && j == k {
            } else if i < k {
                assert(rs[i].0 < rs[j].0);
            } else {
                assert(rs[i - 1].0 < rs[j - 1].0);
            }
        }
    }
    assert forall|h: nat| #[trigger] record_at(t, h) == if h == g {
        Some(v)
    } else {
        record_at(rs, h)
    } by {
        if h == g {
            lemma_record_at(t, k);
        } else if exists|i: int| 0 <= i < rs.len() && #[trigger] rs[i].0 == h {
            let i = choose|i: int| 0 <= i < rs.len() && #[trigger] rs[i].0 == h;
            lemma_record_at(rs, i);
            if i < k {
                lemma_record_at(t, i);
            } else {
                lemma_record_at(t, i + 1);
            }
        } else {
            assert forall|i: int| 0 <= i < t.len() implies #[trigger] t[i].0 != h by {
                if i < k {
                    assert(t[i].0 == rs[i].0);
                } else if i > k {
                    assert(t[i].0 == rs[i - 1].0);
                }
            }
        }
    }
}

/// `after` is `before` with the record at `(p, g)` set to `v`.
pub open spec fn stored(before: ChunkCache, after: ChunkCache, p: Seq<char>, g: nat, v: serde_json::Value) -> bool {
    forall|q: Seq<char>, h: nat| #[trigger]
        after.entry(q, h) == if q == p && h == g {
            Some(v)
        } else {
            before.entry(q, h)
        }
}

/// `after` is `before` without any record of partition `p`.
pub open spec fn purged(before: ChunkCache, after: ChunkCache, p: Seq<char>) -> bool {
    forall|q: Seq<char>, h: nat| #[trigger]
        after.entry(q, h) == if q == p {
            None
        } else {
            before.entry(q, h)
        }
}

/// Reads a stored record back from its text; text that is no valid JSON is
/// a storage error.
pub fn decode_record(text: &str) -> (r: Result<serde_json::Value, PipelineError>)
    ensures
        match parsed_json(text@) {
            Some(v) => r == Ok::<serde_json::Value, PipelineError>(v),
            None => r matches Err(PipelineError::Storage(_)),
        },
{
    match parse_json(text) {
        Some(v) => Ok(v),
        None => Err(PipelineError::Storage(String::from_str("corrupt cache record"))),
    }
}

/// Purging a conversation removes all of its records and leaves the records
/// of every other conversation as they were.
pub proof fn lemma_purge_isolates(
    before: ChunkCache,
    after: ChunkCache,
    name: Seq<char>,
    other: Seq<char>,
    g: nat,
)
    requires
        purged(before, after, sanitized(name)),
    ensures
        after.entry(sanitized(name), g) is None,
        other != name ==> after.entry(sanitized(other), g) == before.entry(sanitized(other), g),
{
    assert(after.entry(sanitized(name), g) is None);
    if other != name {
        if sanitized(other) == sanitized(name) {
            lemma_partition_names_one_conversation(other, name);
        }
        assert(after.entry(sanitized(other), g) == before.entry(sanitized(other), g));
    }
}

/// Purging a conversation that has no records changes nothing, so purging
/// twice is the same as purging once.
pub proof fn lemma_purge_absent_is_noop(before: ChunkCache, after: ChunkCache, name: Seq<char>)
    requires
        purged(before, after, sanitized(name)),
        forall|g: nat| #[trigger] before.entry(sanitized(name), g) is None,
    ensures
        forall|q: Seq<char>, h: nat| #[trigger] after.entry(q, h) == before.entry(q, h),
{
    assert forall|q: Seq<char>, h: nat| #[trigger] after.entry(q, h) == before.entry(q, h) by {
        if q == sanitized(name) {
            assert(before.entry(sanitized(name), h) is None);
        }
    }
}

/// Storing a record under one conversation changes no record of any other
/// conversation, so nothing it stores is found or listed under another name.
pub proof fn lemma_store_leaves_other_names(
    before: ChunkCache,
    after: ChunkCache,
    name: Seq<char>,
    other: Seq<char>,
    g: nat,
    v: serde_json::Value,
    h: nat,
)
    requires
        stored(before, after, sanitized(name), g, v),
        other != name,
    ensures
        after.entry(sanitized(other), h) == before.entry(sanitized(other), h),
{
    if sanitized(other) == sanitized(name) {
        lemma_partition_names_one_conversation(other, name);
    }
    assert(after.entry(sanitized(other), h) == before.entry(sanitized(other), h));
}

/// Storing, looking up, listing and purging all reach a conversation's
/// records through the same partition: a record stored under `name` is found
/// and listed under `name`, and a purge under `name` removes it.
pub proof fn lemma_same_name_same_partition(
    c0: ChunkCache,
    c1: ChunkCache,
    c2: ChunkCache,
    name: Seq<char>,
    g: nat,
    v: serde_json::Value,
)
    requires
        c1.wf(),
        stored(c0, c1, sanitized(name), g, v),
        purged(c1, c2, sanitized(name)),
    ensures
        c1.entry(sanitized(name), g) == Some(v),
        record_values(c1.records_of(sanitized(name))).contains(v),
        forall|h: nat| #[trigger] c2.entry(sanitized(name), h) is None,
{
    assert(c1.entry(sanitized(name), g) == Some(v));
    let rs = c1.records_of(sanitized(name));
    let i = choose|i: int| 0 <= i < rs.len() && #[trigger] rs[i].0 == g;
    c1.lemma_records_ascend(sanitized(name));
    lemma_record_at(rs, i);
    assert(rs[i].1 == v);
    assert(record_values(rs)[i] == rs[i].1);
    assert(record_values(rs)[i] == v);
    assert forall|h: nat| #[trigger] c2.entry(sanitized(name), h) is None by {
        assert(c2.entry(sanitized(name), h) == if sanitized(name) == sanitized(name) {
            None
        } else {
            c1.entry(sanitized(name), h)
        });
    }
}

impl ChunkCache {
    /// Partition names are unique, and each partition's indices ascend.
    pub closed spec fn wf(&self) -> bool {
        &&& forall|i: int, j: int|
            0 <= i < self.parts@.len() && 0 <= j < self.parts@.len() && i != j
                ==> #[trigger] self.parts@[i].key@ != #[trigger] self.parts@[j].key@
        &&& forall|i: int| 0 <= i < self.parts@.len() ==> ascending(#[trigger] self.parts@[i].records@)
    }

    pub closed spec fn holds(&self, p: Seq<char>) -> bool {
        exists|i: int| 0 <= i < self.parts@.len() && #[trigger] self.parts@[i].key@ == p
    }

    /// The records of partition `p`; empty when there is none.
    pub closed spec fn records_of(&self, p: Seq<char>) -> Seq<(usize, serde_json::Value)> {
        if self.holds(p) {
            self.parts@[choose|i: int| 0 <= i < self.parts@.len() && #[trigger] self.parts@[i].key@
                == p].records@
        } else {
            Seq::empty()
        }
    }

    /// The record at global index `g` of partition `p`.
    pub open spec fn entry(&self, p: Seq<char>, g: nat) -> Option<serde_json::Value> {
        record_at(self.records_of(p), g)
    }

    proof fn lemma_records_at(&self, i: int)
        requires
            self.wf(),
            0 <= i < self.parts@.len(),
        ensures
            self.records_of(self.parts@[i].key@) == self.parts@[i].records@,
    {
        let p = self.parts@[i].key@;
        assert(self.holds(p));
    }

    /// The records of every partition ascend by index.
    pub proof fn lemma_records_ascend(&self, p: Seq<char>)
        requires
            self.wf(),
        ensures
            ascending(self.records_of(p)),
    {
        if self.holds(p) {
            let i = choose|i: int| 0 <= i < self.parts@.len() && #[trigger] self.parts@[i].key@ == p;
            self.lemma_records_at(i);
        }
    }

    /// An empty cache.
    pub fn new() -> (r: ChunkCache)
        ensures
            r.wf(),
            forall|p: Seq<char>, g: nat| #[trigger] r.entry(p, g) is None,
    {
        ChunkCache { parts: Vec::new() }
    }

    fn find(&self, key: &String) -> (r: Option<usize>)
        requires
            self.wf(),
        ensures
            match r {
                Some(i) => i < self.parts@.len() && self.parts@[i as int].key@ == key@,
                None => !self.holds(key@),
            },
    {
        let mut i: usize = 0;
        while i < self.parts.len()
            invariant
                i <= self.parts@.len(),
                forall|j: int| 0 <= j < i ==> #[trigger] self.parts@[j].key@ != key@,
            decreases self.parts.len() - i,
        {
            if self.parts[i].key.eq(key) {
                return Some(i);
            }
            i = i + 1;
        }
        None
    }

    /// The record stored for conversation `name` at global index `g`, if any.
    pub fn lookup(&self, name: &str, g: usize) -> (r: Option<serde_json::Value>)
        requires
            self.wf(),
        ensures
            r == self.entry(sanitized(name@), g as nat),
    {
        let key = partition_key(name);
        match self.find(&key) {
            None => None,
            Some(i) => {
                proof {
                    self.lemma_records_at(i as int);
                }
                let rs = &self.parts[i].records;
                assert(ascending(self.parts@[i as int].records@));
                assert(rs@ == self.records_of(sanitized(name@)));
                let mut k: usize = 0;
                while k < rs.len()
                    invariant
                        k <= rs@.len(),
                        ascending(rs@),
                        rs@ == self.records_of(sanitized(name@)),
                        forall|j: int| 0 <= j < k ==> #[trigger] rs@[j].0 != g,
                    decreases rs.len() - k,
                {
                    if rs[k].0 == g {
                        proof {
                            lemma_record_at(rs@, k as int);
                        }
                        let found = rs[k].1.clone();
                        assert(found == rs@[k as int].1);
                        return Some(found);
                    }
                    k = k + 1;
                }
                None
            },
        }
    }

    /// Stores `v` for conversation `name` at global index `g`, creating the
    /// conversation's partition on its first record.
    pub fn store(&mut self, name: &str, g: usize, v: serde_json::Value)
        requires
            old(self).wf(),
        ensures
            final(self).wf(),
            stored(*old(self), *final(self), sanitized(name@), g as nat, v),
    {
        let key = partition_key(name);
        let i = match self.find(&key) {
            Some(i) => i,
            None => {
                self.parts.push(Partition { key, records: Vec::new() });
                proof {
                    assert forall|p: Seq<char>| #[trigger] self.holds(p) == (old(self).holds(p) || p
                        == sanitized(name@)) by {
                        if p == sanitized(name@) {
                            assert(self.parts@[old(self).parts@.len() as int].key@ == p);
                        }
                        if old(self).holds(p) {
                            let j = choose|j: int|
                                0 <= j < old(self).parts@.len() && #[trigger] old(self).parts@[j].key@
                                    == p;
                            assert(self.parts@[j].key@ == p);
                        }
                        if self.holds(p) {
                            let j = choose|j: int|
                                0 <= j < self.parts@.len() && #[trigger] self.parts@[j].key@ == p;
                            if j < old(self).parts@.len() {
                                assert(old(self).parts@[j].key@ == p);
                            }
                        }
                    }
                    assert forall|p: Seq<char>| p != sanitized(name@) implies #[trigger] self.records_of(
                        p,
                    ) == old(self).records_of(p) by {
                        if old(self).holds(p) {
                            let j = choose|j: int|
                                0 <= j < old(self).parts@.len() && #[trigger] old(self).parts@[j].key@
                                    == p;
                            old(self).lemma_records_at(j);
                            self.lemma_records_at(j);
                        }
                    }
                }
                self.parts.len() - 1
            },
        };
        let ghost mid = *self;
        proof {
            self.lemma_records_at(i as int);
        }
        let mut part = self.parts.remove(i);
        let ghost rs0 = part.records@;
        let mut k: usize = 0;
        while k < part.records.len() && part.records[k].0 < g
            invariant
                k <= rs0.len(),
                part.records@ == rs0,
                forall|j: int| 0 <= j < k ==> #[trigger] rs0[j].0 < g,
            decreases part.records.len() - k,
        {
            k = k + 1;
        }
        if k < part.records.len() && part.records[k].0 == g {
            proof {
                lemma_update_record(rs0, k as int, g, v);
            }
            part.records.set(k, (g, v));
        } else {
            proof {
                lemma_insert_record(rs0, k as int, g, v);
            }
            part.records.insert(k, (g, v));
        }
        self.parts.insert(i, part);
        proof {
            assert(self.parts@ =~= mid.parts@.update(i as int, part));
            assert(self.wf());
            self.lemma_records_at(i as int);
            assert forall|q: Seq<char>, h: nat| #[trigger]
                self.entry(q, h) == if q == sanitized(name@) && h == g {
                    Some(v)
                } else {
                    old(self).entry(q, h)
                } by {
                if q != sanitized(name@) {
                    assert(mid.holds(q) == self.holds(q)) by {
                        if mid.holds(q) {
                            let j = choose|j: int|
                                0 <= j < mid.parts@.len() && #[trigger] mid.parts@[j].key@ == q;
                            assert(self.parts@[j].key@ == q);
                        }
                        if self.holds(q) {
                            let j = choose|j: int|
                                0 <= j < self.parts@.len() && #[trigger] self.parts@[j].key@ == q;
                            assert(mid.parts@[j].key@ == q);
                        }
                    }
                    if mid.holds(q) {
                        let j = choose|j: int|
                            0 <= j < mid.parts@.len() && #[trigger] mid.parts@[j].key@ == q;
                        mid.lemma_records_at(j);
                        self.lemma_records_at(j);
                    }
                    assert(mid.records_of(q) == old(self).records_of(q));
                } else {
                    assert(mid.records_of(q) == old(self).records_of(q) || !old(self).holds(q));
                }
            }
        }
    }

    /// Removes every record of conversation `name`; nothing happens when it has none.
    pub fn purge(&mut self, name: &str)
        requires
            old(self).wf(),
        ensures
            final(self).wf(),
            purged(*old(self), *final(self), sanitized(name@)),
            forall|other: Seq<char>, g: nat|
                other != name@ ==> #[trigger] final(self).entry(sanitized(other), g) == old(
                    self,
                ).entry(sanitized(other), g),
    {
        let ghost before = *self;
        self.purge_partition(name);
        proof {
            assert forall|other: Seq<char>, g: nat|
                other != name@ implies #[trigger] self.entry(sanitized(other), g) == before.entry(
                sanitized(other),
                g,
            ) by {
                lemma_purge_isolates(before, *self, name@, other, g);
            }
        }
    }

    fn purge_partition(&mut self, name: &str)
        requires
            old(self).wf(),
        ensures
            final(self).wf(),
            purged(*old(self), *final(self), sanitized(name@)),
    {
        let key = partition_key(name);
        match self.find(&key) {
            None => {},
            Some(i) => {
                let ghost before = *self;
                self.parts.remove(i);
                proof {
                    assert(self.wf());
                    assert forall|q: Seq<char>, h: nat| #[trigger]
                        self.entry(q, h) == if q == sanitized(name@) {
                            None
                        } else {
                            before.entry(q, h)
                        } by {
                        if q == sanitized(name@) {
                            if self.holds(q) {
                                let j = choose|j: int|
                                    0 <= j < self.parts@.len() && #[trigger] self.parts@[j].key@ == q;
                                if j < i {
                                    assert(before.parts@[j].key@ == q);
                                } else {
                                    assert(before.parts@[j + 1].key@ == q);
                                }
                            }
                        } else {
                            if before.holds(q) {
                                let j = choose|j: int|
                                    0 <= j < before.parts@.len() && #[trigger] before.parts@[j].key@
                                        == q;
                                before.lemma_records_at(j);
                                if j < i {
                                    self.lemma_records_at(j);
                                } else {
                                    assert(j != i);
                                    self.lemma_records_at(j - 1);
                                }
                            } else if self.holds(q) {
                                let j = choose|j: int|
                                    0 <= j < self.parts@.len() && #[trigger] self.parts@[j].key@ == q;
                                if j < i {
                                    assert(before.parts@[j].key@ == q);
                                } else {
                                    assert(before.parts@[j + 1].key@ == q);
                                }
                            }
                        }
                    }
                }
            },
        }
    }

    /// Every record of conversation `name`, by ascending global index; empty
    /// when it has none. A partition holds one conversation's records only
    /// (`lemma_partition_names_one_conversation`).
    pub fn list_ordered(&self, name: &str) -> (r: Vec<serde_json::Value>)
        requires
            self.wf(),
        ensures
            r@ == record_values(self.records_of(sanitized(name@))),
            ascending(self.records_of(sanitized(name@))),
    {
        proof {
            self.lemma_records_ascend(sanitized(name@));
        }
        let key = partition_key(name);
        let mut out: Vec<serde_json::Value> = Vec::new();
        match self.find(&key) {
            None => {},
            Some(i) => {
                proof {
                    self.lemma_records_at(i as int);
                }
                let rs = &self.parts[i].records;
                let mut k: usize = 0;
                while k < rs.len()
                    invariant
                        k <= rs@.len(),
                        out@ == record_values(rs@.take(k as int)),
                    decreases rs.len() - k,
                {
                    out.push(rs[k].1.clone());
                    assert(record_values(rs@.take(k + 1)) =~= record_values(rs@.take(k as int)).push(
                        rs@[k as int].1,
                    ));
                    k = k + 1;
                }
                assert(rs@.take(k as int) =~= rs@);
            },
        }
        out
    }
}

} // verus!
