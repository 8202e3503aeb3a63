//! The local content store: validated content records keyed by digest
//! and weight, a tip and Merkle roots supplied by the chain
//! synchronizer, and a storage budget enforced by lowest-weight-first
//! eviction.

use vstd::prelude::*;
use crate::codec::{bytes_eq, copy_bytes};
use crate::content::{Content, content_digest, sum_funding, weight_value};
use crate::key::ContentKey;
use crate::script::fscript_of;

verus! {

/// Why the store refused a content record.
#[derive(Debug)]
pub enum StoreError {
    /// no Merkle root is known for the record's block
    UnknownBlock,
    /// the record failed funding, proof or weight validation
    Invalid,
    /// the store's footprint accounting would overflow
    Overflow,
}

/// A content record as the store holds it, with its admission-time key.
pub struct StoredContent {
    /// the record's key: digest and weight at admission time
    pub key: ContentKey,
    /// the record itself
    pub content: Content,
}

/// A stored record is keyed by its own digest and its derived weight,
/// and occupies a positive footprint.
pub open spec fn entry_wf(e: StoredContent) -> bool {
    &&& e.key.wf()
    &&& e.key.digest@ == content_digest(e.content.data@, e.content.funder@)
    &&& e.content.footprint() > 0
    &&& e.key.weight == weight_value(
        sum_funding(
            e.content.funding.outputs@,
            fscript_of(e.content.funder@, e.key.digest@, e.content.term),
        ),
        e.content.footprint(),
    )
}

/// The stored records are sorted by weight ascending, hold pairwise
/// distinct digests, and are each well formed.
pub open spec fn entries_wf(s: Seq<StoredContent>) -> bool {
    &&& forall|i: int, j: int|
        0 <= i < j < s.len() ==> #[trigger] s[i].key.weight <= #[trigger] s[j].key.weight
    &&& forall|i: int, j: int|
        0 <= i < j < s.len() ==> #[trigger] s[i].key.digest@ != #[trigger] s[j].key.digest@
    &&& forall|i: int| 0 <= i < s.len() ==> #[trigger] entry_wf(s[i])
}

/// Total stored footprint of a sequence of records.
pub open spec fn sum_footprint(s: Seq<StoredContent>) -> int
    decreases s.len(),
{
    if s.len() == 0 {
        0
    } else {
        s[0].content.footprint() + sum_footprint(s.drop_first())
    }
}

/// Whether some record in `s` has the given digest.
pub open spec fn has_digest(s: Seq<StoredContent>, d: Seq<u8>) -> bool {
    exists|i: int| 0 <= i < s.len() && s[i].key.digest@ == d
}

/// Whether `s` holds the record `e`.
pub open spec fn holds_entry(s: Seq<StoredContent>, e: StoredContent) -> bool {
    exists|i: int| 0 <= i < s.len() && s[i] == e
}

/// Whether `headers` knows a Merkle root for `block_id`, and which.
pub open spec fn root_for(headers: Seq<(Vec<u8>, Vec<u8>)>, block_id: Seq<u8>) -> Option<Seq<u8>>
    decreases headers.len(),
{
    if headers.len() == 0 {
        None
    } else if headers[0].0@ == block_id {
        Some(headers[0].1@)
    } else {
        root_for(headers.drop_first(), block_id)
    }
}

proof fn lemma_sum_footprint_nonneg(s: Seq<StoredContent>)
    ensures
        sum_footprint(s) >= 0,
    decreases s.len(),
{
    if s.len() > 0 {
        lemma_sum_footprint_nonneg(s.drop_first());
    }
}

proof fn lemma_sum_footprint_insert(s: Seq<StoredContent>, k: int, e: StoredContent)
    requires
        0 <= k <= s.len(),
    ensures
        sum_footprint(s.insert(k, e)) == sum_footprint(s) + e.content.footprint(),
    decreases s.len(),
{
    if k == 0 {
        assert(s.insert(0, e)[0] == e);
        assert(s.insert(0, e).drop_first() =~= s);
    } else {
        assert(s.insert(k, e)[0] == s[0]);
        assert(s.insert(k, e).drop_first() =~= s.drop_first().insert(k - 1, e));
        lemma_sum_footprint_insert(s.drop_first(), k - 1, e);
    }
}

/// The local content store.
pub struct ContentStore {
    /// stored records, sorted by weight ascending
    pub entries: Vec<StoredContent>,
    /// known block headers: block id and Merkle root
    pub headers: Vec<(Vec<u8>, Vec<u8>)>,
    /// the canonical chain tip, once the header sync has one
    pub tip: Option<Vec<u8>>,
    /// the configured storage budget in footprint bytes
    pub budget: u64,
    /// current total footprint of the stored records
    pub total: u128,
}

impl ContentStore {
    /// The store's records are well formed and its footprint total is
    /// exact.
    pub open spec fn wf(&self) -> bool {
        &&& entries_wf(self.entries@)
        &&& self.total as int == sum_footprint(self.entries@)
        &&& (self.tip matches Some(t) ==> t@.len() == 32)
    }

    /// An empty store with the given storage budget.
    pub fn new(budget: u64) -> (r: ContentStore)
        ensures
            r.wf(),
            r.entries@.len() == 0,
            r.headers@.len() == 0,
            r.tip is None,
            r.budget == budget,
    {
        ContentStore {
            entries: Vec::new(),
            headers: Vec::new(),
            tip: None,
            budget,
            total: 0,
        }
    }

    /// The canonical tip, or `None` before the initial header sync.
    pub fn get_tip(&self) -> (r: Option<Vec<u8>>)
        ensures
            (r matches Some(t) ==> self.tip matches Some(u) && t@ == u@),
            (r is None <==> self.tip is None),
    {
        match &self.tip {
            Some(t) => Some(copy_bytes(t.as_slice())),
            None => None,
        }
    }

    /// Records the canonical tip as the chain synchronizer reports it.
    pub fn set_tip(&mut self, tip: Vec<u8>)
        requires
            old(self).wf(),
            tip@.len() == 32,
        ensures
            final(self).wf(),
            final(self).tip matches Some(t) && t@ == tip@,
            final(self).entries@ == old(self).entries@,
            final(self).headers@ == old(self).headers@,
            final(self).budget == old(self).budget,
    {
        self.tip = Some(tip);
    }

    /// Records the Merkle root of a block, as the chain synchronizer
    /// learns it.
    pub fn add_header(&mut self, block_id: Vec<u8>, merkle_root: Vec<u8>)
        requires
            old(self).wf(),
        ensures
            final(self).wf(),
            final(self).headers@ == old(self).headers@.push((block_id, merkle_root)),
            final(self).entries@ == old(self).entries@,
            final(self).tip == old(self).tip,
            final(self).budget == old(self).budget,
    {
        self.headers.push((block_id, merkle_root));
    }

    /// The Merkle root the store knows for a block, if any.
    pub fn merkle_root_for(&self, block_id: &[u8]) -> (r: Option<Vec<u8>>)
        ensures
            (r matches Some(t) ==> root_for(self.headers@, block_id@) matches Some(s) && t@ == s),
            (r is None ==> root_for(self.headers@, block_id@) is None),
    {
        proof {
            assert(self.headers@.skip(0) =~= self.headers@);
        }
        let mut i: usize = 0;
        while i < self.headers.len()
            invariant
                i <= self.headers@.len(),
                root_for(self.headers@, block_id@) == root_for(
                    self.headers@.skip(i as int),
                    block_id@,
                ),
            decreases self.headers@.len() - i,
        {
            proof {
                assert(self.headers@.skip(i as int)[0] == self.headers@[i as int]);
                assert(self.headers@.skip(i as int).drop_first() =~= self.headers@.skip(i + 1));
            }
            if bytes_eq(self.headers[i].0.as_slice(), block_id) {
                return Some(copy_bytes(self.headers[i].1.as_slice()));
            }
            i += 1;
        }
        None
    }

    /// Number of keys the store currently holds.
    pub fn get_nkeys(&self) -> (r: usize)
        ensures
            r == self.entries@.len(),
    {
        self.entries.len()
    }

    /// The stored keys, one per record, in stored order.
    pub fn get_keys(&self) -> (r: Vec<ContentKey>)
        ensures
            r@.len() == self.entries@.len(),
            forall|i: int|
                0 <= i < r@.len() ==> #[trigger] r@[i].digest@ == self.entries@[i].key.digest@
                    && r@[i].weight == self.entries@[i].key.weight,
    {
        let mut out: Vec<ContentKey> = Vec::new();
        let mut i: usize = 0;
        while i < self.entries.len()
            invariant
                i <= self.entries@.len(),
                out@.len() == i,
                forall|j: int|
                    0 <= j < i ==> #[trigger] out@[j].digest@ == self.entries@[j].key.digest@
                        && out@[j].weight == self.entries@[j].key.weight,
            decreases self.entries@.len() - i,
        {
            out.push(self.entries[i].key.duplicate());
            proof {
                assert(out@[i as int].digest@ == self.entries@[i as int].key.digest@
                    && out@[i as int].weight == self.entries@[i as int].key.weight);
            }
            i += 1;
        }
        out
    }

    /// Looks a record up by its content digest.
    pub fn get_content(&self, digest: &[u8]) -> (r: Option<&Content>)
        requires
            self.wf(),
        ensures
            (r matches Some(c) ==> exists|i: int|
                0 <= i < self.entries@.len() && self.entries@[i].key.digest@ == digest@
                    && self.entries@[i].content == *c),
            (r is None ==> !has_digest(self.entries@, digest@)),
    {
        let mut i: usize = 0;
        while i < self.entries.len()
            invariant
                i <= self.entries@.len(),
                forall|j: int| 0 <= j < i ==> self.entries@[j].key.digest@ != digest@,
            decreases self.entries@.len() - i,
        {
            if bytes_eq(self.entries[i].key.digest.as_slice(), digest) {
                return Some(&self.entries[i].content);
            }
            i += 1;
        }
        None
    }

    /// Validates a record against the Merkle root the store knows for
    /// its block and admits it, keyed by digest and derived weight;
    /// admitted records keep the weight order. Duplicate digests are
    /// accepted without change.
    #[verifier::loop_isolation(false)]
    pub fn add_content(&mut self, content: Content) -> (r: Result<(), StoreError>)
        requires
            old(self).wf(),
        ensures
            final(self).wf(),
            final(self).headers@ == old(self).headers@,
            final(self).tip == old(self).tip,
            final(self).budget == old(self).budget,
            (r matches Err(e) ==> *final(self) == *old(self)),
            root_for(old(self).headers@, content.block_id@) is None ==> (r matches Err(
                e,
            ) && e is UnknownBlock),
            (r matches Err(e) && e is UnknownBlock ==> root_for(
                old(self).headers@,
                content.block_id@,
            ) is None),
            (root_for(old(self).headers@, content.block_id@) matches Some(root)
                && content.spv_root() != root ==> r is Err),
            content.footprint() == 0 ==> r is Err,
            (root_for(old(self).headers@, content.block_id@) matches Some(root)
                && content.spv_root() == root && content.funding_ok() && content.footprint() > 0
                && sum_footprint(old(self).entries@) + content.footprint() <= u128::MAX
                ==> r is Ok),
            (r is Ok ==> has_digest(
                final(self).entries@,
                content_digest(content.data@, content.funder@),
            )),
            (r is Ok && has_digest(
                old(self).entries@,
                content_digest(content.data@, content.funder@),
            ) ==> *final(self) == *old(self)),
            (r is Ok && !has_digest(
                old(self).entries@,
                content_digest(content.data@, content.funder@),
            ) ==> exists|k: int|
                0 <= k <= old(self).entries@.len()
                    && final(self).entries@ == old(self).entries@.insert(k, final(self).entries@[k])
                    && final(self).entries@[k].content == content),
    {
        let root = match self.merkle_root_for(content.block_id.as_slice()) {
            Some(root) => root,
            None => {
                return Err(StoreError::UnknownBlock);
            },
        };
        if !content.is_valid(root.as_slice()) {
            return Err(StoreError::Invalid);
        }
        let w = match content.weight() {
            Some(w) => w,
            None => {
                return Err(StoreError::Invalid);
            },
        };
        let d = content.digest();
        let key = ContentKey::new(d.as_slice(), w);

        // idempotent on duplicates
        let mut i: usize = 0;
        while i < self.entries.len()
            invariant
                i <= self.entries@.len(),
                forall|j: int| 0 <= j < i ==> self.entries@[j].key.digest@ != d@,
            decreases self.entries@.len() - i,
        {
            if bytes_eq(self.entries[i].key.digest.as_slice(), d.as_slice()) {
                proof {
                    assert(has_digest(self.entries@, content_digest(content.data@, content.funder@)));
                }
                return Ok(());
            }
            i += 1;
        }

        let fp: u128 = content.data.len() as u128 + content.funding.raw.len() as u128 + 32u128
            * content.spv_proof.len() as u128;
        let new_total: u128 = match self.total.checked_add(fp) {
            Some(t) => t,
            None => {
                return Err(StoreError::Overflow);
            },
        };

        // find the insertion point that keeps the weight order
        let mut k: usize = 0;
        while k < self.entries.len() && self.entries[k].key.weight <= w
            invariant
                k <= self.entries@.len(),
                forall|j: int| 0 <= j < k ==> #[trigger] self.entries@[j].key.weight <= w,
            decreases self.entries@.len() - k,
        {
            k += 1;
        }
        proof {
            lemma_sum_footprint_insert(
                self.entries@,
                k as int,
                StoredContent { key, content },
            );
            self.entries@.insert_ensures(k as int, StoredContent { key, content });
        }
        let entry = StoredContent { key, content };
        self.entries.insert(k, entry);
        self.total = new_total;
        proof {
            let s = old(self).entries@;
            let t = self.entries@;
            let ki = k as int;
            assert forall|p: int, q: int| 0 <= p < q < t.len() implies #[trigger] t[p].key.weight
                <= #[trigger] t[q].key.weight by {
                if p < ki && q < ki {
                    assert(t[p] == s[p] && t[q] == s[q]);
                } else if p < ki && q == ki {
                    assert(t[p] == s[p]);
                } else if p < ki && q > ki {
                    assert(t[p] == s[p] && t[q] == s[q - 1]);
                } else if p == ki && q > ki {
                    assert(t[q] == s[q - 1]);
                } else if p > ki && q > ki {
                    assert(t[p] == s[p - 1] && t[q] == s[q - 1]);
                }
            }
            assert forall|p: int, q: int| 0 <= p < q < t.len() implies #[trigger] t[p].key.digest@
                != #[trigger] t[q].key.digest@ by {
                if p != ki && q != ki {
                    let p0 = if p < ki { p } else { p - 1 };
                    let q0 = if q < ki { q } else { q - 1 };
                    assert(t[p] == s[p0] && t[q] == s[q0]);
                } else if p == ki {
                    assert(t[q] == s[q - 1]);
                } else {
                    assert(t[p] == if p < ki { s[p] } else { s[p - 1] });
                }
            }
            assert forall|p: int| 0 <= p < t.len() implies #[trigger] entry_wf(t[p]) by {
                if p < ki {
                    assert(t[p] == s[p]);
                } else if p > ki {
                    assert(t[p] == s[p - 1]);
                }
            }
            assert(t[ki].content == content);
        }
        Ok(())
    }

    /// Evicts lowest-weight records until the total stored footprint
    /// fits the configured budget. Returns how many records were
    /// evicted; what remains is a suffix of the old weight-ordered
    /// record list.
    #[verifier::loop_isolation(false)]
    pub fn truncate_to_limit(&mut self) -> (evicted: usize)
        requires
            old(self).wf(),
        ensures
            final(self).wf(),
            final(self).headers@ == old(self).headers@,
            final(self).tip == old(self).tip,
            final(self).budget == old(self).budget,
            sum_footprint(final(self).entries@) <= final(self).budget,
            evicted <= old(self).entries@.len(),
            final(self).entries@ == old(self).entries@.skip(evicted as int),
            evicted > 0 ==> sum_footprint(old(self).entries@.skip(evicted - 1))
                > final(self).budget,
    {
        let mut evicted: usize = 0;
        let n: usize = self.entries.len();
        proof {
            assert(self.entries@ =~= old(self).entries@.skip(0));
        }
        while self.total > self.budget as u128
            invariant
                self.wf(),
                evicted + self.entries@.len() == n,
                evicted <= old(self).entries@.len(),
                self.entries@ == old(self).entries@.skip(evicted as int),
                evicted > 0 ==> sum_footprint(old(self).entries@.skip(evicted - 1)) > self.budget,
                self.headers@ == old(self).headers@,
                self.tip == old(self).tip,
                self.budget == old(self).budget,
            decreases self.entries@.len(),
        {
            let ghost prev = self.entries@;
            proof {
                if prev.len() == 0 {
                    assert(sum_footprint(prev) == 0);
                    assert(false);
                }
                lemma_sum_footprint_nonneg(prev.drop_first());
                assert(entry_wf(prev[0]));
            }
            let first_fp: u128 = self.entries[0].content.data.len() as u128
                + self.entries[0].content.funding.raw.len() as u128 + 32u128
                * self.entries[0].content.spv_proof.len() as u128;
            self.entries.remove(0);
            self.total = self.total - first_fp;
            evicted += 1;
            proof {
                assert(prev.remove(0) =~= prev.drop_first());
                assert(prev.drop_first() =~= old(self).entries@.skip(evicted as int));
                let t = self.entries@;
                assert forall|p: int, q: int| 0 <= p < q < t.len() implies #[trigger] t[p].key.weight
                    <= #[trigger] t[q].key.weight by {
                    assert(t[p] == prev[p + 1] && t[q] == prev[q + 1]);
                }
                assert forall|p: int, q: int| 0 <= p < q
                    < t.len() implies #[trigger] t[p].key.digest@ != #[trigger] t[q].key.digest@ by {
                    assert(t[p] == prev[p + 1] && t[q] == prev[q + 1]);
                }
                assert forall|p: int| 0 <= p < t.len() implies #[trigger] entry_wf(t[p]) by {
                    assert(t[p] == prev[p + 1]);
                }
            }
        }
        evicted
    }
}

/// Law: because the store keeps its records sorted by weight, every
/// record a truncation evicts weighs no more than every record it
/// retains.
pub proof fn lemma_eviction_order(s: Seq<StoredContent>, k: int)
    requires
        entries_wf(s),
        0 <= k <= s.len(),
    ensures
        forall|i: int, j: int|
            0 <= i < k && k <= j < s.len() ==> #[trigger] s[i].key.weight
                <= #[trigger] s[j].key.weight,
{
}

} // verus!
