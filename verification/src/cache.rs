//! The two-tier deduplication cache.
//!
//! Lookups and inserts consult the exact in-memory tier first and then the
//! compact tier, through chunk-codec-encoded keys.  When the exact tier's
//! accumulated byte size would reach the configured memory budget, all of its
//! items are spilled (drained and encoded) into the compact tier.
//!
//! The cache's behaviour is specified against an abstract model
//! (`CacheModel`): the exact tier's items, the optional set of encoded keys in
//! the compact tier, and the budget.  An item counts as present when it is in
//! the exact tier, or when the compact tier exists and holds every one of the
//! item's encoded keys.

use vstd::prelude::*;

use crate::chunk;
use crate::chunk::chunks_of;
use crate::chunk::key_of;
use crate::chunk::keys_of;
use crate::compact::CompactTier;
use crate::exact::ExactTier;
use crate::exact::clamped_sum;
use crate::exact::sum_len;

verus! {

/// Abstract state of the cache: the exact tier's items in insertion order, the
/// compact tier's key set (`None` until the tier exists), and the memory
/// budget in bytes (0 meaning unlimited).
#[verifier::ext_equal]
pub ghost struct CacheModel {
    pub mem: Seq<Seq<u8>>,
    pub disk: Option<Set<Seq<u8>>>,
    pub budget: nat,
}

/// The keys of `ks` before position `n`, as a set.
pub open spec fn partial_keys(ks: Seq<Seq<u8>>, n: int) -> Set<Seq<u8>> {
    Set::new(|k: Seq<u8>| exists|j: int| 0 <= j < n && ks[j] == k)
}

/// The set of encoded keys of one item.
pub open spec fn item_keys(s: Seq<u8>) -> Set<Seq<u8>> {
    partial_keys(keys_of(s), keys_of(s).len() as int)
}

/// The set of encoded keys of all of the given items.
pub open spec fn all_keys(items: Seq<Seq<u8>>) -> Set<Seq<u8>> {
    Set::new(|k: Seq<u8>| exists|i: int| 0 <= i < items.len() && (#[trigger] keys_of(items[i])).contains(k))
}

/// The compact tier's key set, or the empty set while the tier is absent.
pub open spec fn disk_or_empty(c: CacheModel) -> Set<Seq<u8>> {
    match c.disk {
        Some(d) => d,
        None => Set::empty(),
    }
}

/// The key set `d` holds every encoded key of the item.
pub open spec fn covers(d: Set<Seq<u8>>, s: Seq<u8>) -> bool {
    forall|j: int| 0 <= j < keys_of(s).len() ==> d.contains(#[trigger] keys_of(s)[j])
}

/// At least one of the item's encoded keys is absent from `d`.
pub open spec fn some_key_new(d: Set<Seq<u8>>, s: Seq<u8>) -> bool {
    exists|j: int| 0 <= j < keys_of(s).len() && !d.contains(#[trigger] keys_of(s)[j])
}

/// Inserting an item of this length must first spill the exact tier: the
/// budget is set and the accumulated size plus the item's length reaches it.
pub open spec fn spill_triggered(c: CacheModel, item: Seq<u8>) -> bool {
    c.budget != 0 && sum_len(c.mem) + item.len() >= c.budget
}

/// The spill transition: every exact-tier item's keys move into the compact
/// tier (created if absent), and the exact tier is emptied.
pub open spec fn spec_spill(c: CacheModel) -> CacheModel {
    CacheModel {
        mem: Seq::empty(),
        disk: Some(disk_or_empty(c).union(all_keys(c.mem))),
        budget: c.budget,
    }
}

/// The insert transition: spill first if the budget is reached; then add the
/// item to the exact tier if it is new there, and, when the compact tier
/// exists, also add the item's keys to it.
pub open spec fn spec_insert(c: CacheModel, item: Seq<u8>) -> CacheModel {
    let c1 = if spill_triggered(c, item) {
        spec_spill(c)
    } else {
        c
    };
    if c1.mem.contains(item) {
        c1
    } else {
        CacheModel {
            mem: c1.mem.push(item),
            disk: match c1.disk {
                Some(d) => Some(d.union(item_keys(item))),
                None => None,
            },
            budget: c1.budget,
        }
    }
}

/// What `insert` reports: the item is newly seen when it is new to the exact
/// tier and, if the compact tier exists, at least one of its keys was newly
/// added there.
pub open spec fn spec_insert_new(c: CacheModel, item: Seq<u8>) -> bool {
    let c1 = if spill_triggered(c, item) {
        spec_spill(c)
    } else {
        c
    };
    &&& !c1.mem.contains(item)
    &&& match c1.disk {
        Some(d) => some_key_new(d, item),
        None => true,
    }
}

/// What `contains` reports: present in the exact tier, or, if the compact tier
/// exists, all of the item's encoded keys are present there.
pub open spec fn spec_contains(c: CacheModel, item: Seq<u8>) -> bool {
    ||| c.mem.contains(item)
    ||| match c.disk {
        Some(d) => covers(d, item),
        None => false,
    }
}

/// The two-tier deduplication cache.
pub struct Cache {
    memo: ExactTier,
    disk: Option<CompactTier>,
    memo_limit: usize,
}

impl View for Cache {
    type V = CacheModel;

    closed spec fn view(&self) -> CacheModel {
        CacheModel {
            mem: self.memo@,
            disk: match self.disk {
                Some(d) => Some(d@),
                None => None,
            },
            budget: self.memo_limit as nat,
        }
    }
}

proof fn lemma_partial_keys_step(ks: Seq<Seq<u8>>, i: int)
    requires
        0 <= i < ks.len(),
    ensures
        partial_keys(ks, i + 1) =~= partial_keys(ks, i).insert(ks[i]),
{
    assert forall|k: Seq<u8>| partial_keys(ks, i + 1).contains(k) implies partial_keys(
        ks,
        i,
    ).insert(ks[i]).contains(k) by {
        let j = choose|j: int| 0 <= j < i + 1 && ks[j] == k;
        if j < i {
            assert(partial_keys(ks, i).contains(k));
        }
    }
    assert forall|k: Seq<u8>| partial_keys(ks, i).insert(ks[i]).contains(k) implies partial_keys(
        ks,
        i + 1,
    ).contains(k) by {
        if partial_keys(ks, i).contains(k) {
            let j = choose|j: int| 0 <= j < i && ks[j] == k;
            assert(0 <= j < i + 1 && ks[j] == k);
        } else {
            assert(0 <= i < i + 1 && ks[i] == k);
        }
    }
}

proof fn lemma_all_keys_step(items: Seq<Seq<u8>>, i: int)
    requires
        0 <= i < items.len(),
    ensures
        all_keys(items.subrange(0, i + 1)) =~= all_keys(items.subrange(0, i)).union(
            item_keys(items[i]),
        ),
{
    let pre = items.subrange(0, i);
    let cur = items.subrange(0, i + 1);
    assert forall|k: Seq<u8>| all_keys(cur).contains(k) implies all_keys(pre).union(
        item_keys(items[i]),
    ).contains(k) by {
        let m = choose|m: int| 0 <= m < cur.len() && (#[trigger] keys_of(cur[m])).contains(k);
        if m < i {
            assert(keys_of(pre[m]).contains(k));
        } else {
            assert(cur[m] == items[i]);
            let j = choose|j: int| 0 <= j < keys_of(items[i]).len() && keys_of(items[i])[j] == k;
            assert(item_keys(items[i]).contains(k));
        }
    }
    assert forall|k: Seq<u8>| all_keys(pre).union(item_keys(items[i])).contains(k)
        implies all_keys(cur).contains(k) by {
        if all_keys(pre).contains(k) {
            let m = choose|m: int| 0 <= m < pre.len() && (#[trigger] keys_of(pre[m])).contains(k);
            assert(keys_of(cur[m]).contains(k));
        } else {
            let j = choose|j: int| 0 <= j < keys_of(items[i]).len() && keys_of(items[i])[j] == k;
            assert(keys_of(cur[i]).contains(k));
        }
    }
}

impl Cache {
    /// Both tiers are internally consistent.
    pub closed spec fn wf(&self) -> bool {
        &&& self.memo.wf()
        &&& match self.disk {
            Some(d) => d.wf(),
            None => true,
        }
    }

    /// Creates a cache that buffers items exactly in memory until their
    /// accumulated size reaches `memo_limit` bytes (0 meaning no limit), and
    /// from then on also records every item in the compact tier.
    pub fn new(memo_limit: usize) -> (c: Cache)
        ensures
            c.wf(),
            c@ == (CacheModel {
                mem: Seq::<Seq<u8>>::empty(),
                disk: None::<Set<Seq<u8>>>,
                budget: memo_limit as nat,
            }),
    {
        Cache { memo: ExactTier::new(), disk: None, memo_limit }
    }

    /// Adds the item's encoded keys to the compact tier, creating the tier if
    /// it is absent; reports whether at least one key was newly added.
    fn insert_on_disk(&mut self, item: &[u8]) -> (r: bool)
        requires
            old(self).wf(),
        ensures
            final(self).wf(),
            final(self)@.mem == old(self)@.mem,
            final(self)@.budget == old(self)@.budget,
            final(self)@.disk == Some(disk_or_empty(old(self)@).union(item_keys(item@))),
            r == some_key_new(disk_or_empty(old(self)@), item@),
    {
        let mut disk_opt: Option<CompactTier> = None;
        core::mem::swap(&mut disk_opt, &mut self.disk);
        let mut d = match disk_opt {
            Some(d0) => d0,
            None => CompactTier::new(),
        };
        let ghost base = d@;
        proof {
            assert(base == disk_or_empty(old(self)@));
        }
        let keys = chunk::item_to_keys(item);
        let mut res = false;
        let mut i: usize = 0;
        proof {
            assert(d@ =~= base.union(partial_keys(keys_of(item@), 0)));
        }
        while i < keys.len()
            invariant
                d.wf(),
                i <= keys@.len(),
                keys@.len() == keys_of(item@).len(),
                forall|j: int| 0 <= j < keys@.len() ==> keys@[j]@ == keys_of(item@)[j],
                d@ == base.union(partial_keys(keys_of(item@), i as int)),
                res == exists|j: int|
                    0 <= j < i && !(#[trigger] base.contains(keys_of(item@)[j])),
            decreases keys@.len() - i,
        {
            let ghost res_pre = res;
            let ghost ii = i as int;
            proof {
                assert(keys@[ii]@ == keys_of(item@)[ii]);
                assert(keys_of(item@)[ii].len() == 128);
            }
            let fresh = d.insert_key(&keys[i]);
            res = fresh || res;
            i = i + 1;
            proof {
                lemma_partial_keys_step(keys_of(item@), ii);
                assert(d@ =~= base.union(partial_keys(keys_of(item@), ii + 1)));
                let k = keys_of(item@)[ii];
                if fresh {
                    assert(!base.contains(k));
                } else if !res_pre {
                    if !base.contains(k) {
                        assert(partial_keys(keys_of(item@), ii).contains(k));
                        let j = choose|j: int| 0 <= j < ii && keys_of(item@)[j] == k;
                        assert(base.contains(keys_of(item@)[j]));
                        assert(false);
                    }
                }
            }
        }
        self.disk = Some(d);
        proof {
            assert(partial_keys(keys_of(item@), keys_of(item@).len() as int) == item_keys(item@));
        }
        res
    }

    /// The spill: drains every exact-tier item and records its encoded keys in
    /// the compact tier, creating the tier if it is absent.
    fn dump_to_disk(&mut self)
        requires
            old(self).wf(),
        ensures
            final(self).wf(),
            final(self)@ == spec_spill(old(self)@),
    {
        let ghost base = disk_or_empty(old(self)@);
        let ghost drained = old(self)@.mem;
        if self.disk.is_none() {
            self.disk = Some(CompactTier::new());
        }
        let items = self.memo.drain();
        let mut i: usize = 0;
        proof {
            assert(self@.disk == Some(base.union(all_keys(drained.subrange(0, 0))))) by {
                assert(base.union(all_keys(drained.subrange(0, 0))) =~= base);
            }
        }
        while i < items.len()
            invariant
                self.wf(),
                i <= items@.len(),
                items@.map_values(|v: Vec<u8>| v@) == drained,
                self@.mem == Seq::<Seq<u8>>::empty(),
                self@.budget == old(self)@.budget,
                self@.disk == Some(base.union(all_keys(drained.subrange(0, i as int)))),
            decreases items@.len() - i,
        {
            let ghost ii = i as int;
            proof {
                assert(items@[ii]@ == drained[ii]);
            }
            self.insert_on_disk(items[i].as_slice());
            i = i + 1;
            proof {
                lemma_all_keys_step(drained, ii);
                assert(base.union(all_keys(drained.subrange(0, ii))).union(item_keys(drained[ii]))
                    =~= base.union(all_keys(drained.subrange(0, ii + 1))));
            }
        }
        proof {
            assert(drained.subrange(0, drained.len() as int) =~= drained);
            assert(final(self)@ =~= spec_spill(old(self)@));
        }
    }

    /// Records the item and reports whether it was newly seen.  Spills the
    /// exact tier first whenever the accumulated size plus the item's length
    /// reaches a nonzero budget.
    pub fn insert(&mut self, item: &[u8]) -> (r: bool)
        requires
            old(self).wf(),
        ensures
            final(self).wf(),
            final(self)@ == spec_insert(old(self)@, item@),
            r == spec_insert_new(old(self)@, item@),
    {
        let do_spill = self.memo_limit != 0 && (item.len() >= self.memo_limit
            || self.memo.total_bytes() >= self.memo_limit - item.len());
        proof {
            let s = sum_len(old(self)@.mem);
            let cs = clamped_sum(old(self)@.mem);
            if self.memo_limit != 0 && item@.len() < self.memo_limit {
                if s > usize::MAX as nat {
                    assert(cs == usize::MAX as nat);
                }
            }
            assert(do_spill == spill_triggered(old(self)@, item@));
        }
        if do_spill {
            self.dump_to_disk();
        }
        let ghost c1 = if spill_triggered(old(self)@, item@) {
            spec_spill(old(self)@)
        } else {
            old(self)@
        };
        proof {
            assert(self@ == c1);
        }
        let newly = self.memo.insert(item);
        let mut res = newly;
        if newly && self.disk.is_some() {
            res = self.insert_on_disk(item);
        }
        proof {
            assert(final(self)@ =~= spec_insert(old(self)@, item@));
        }
        res
    }

    /// Reports whether the item has been seen: present in the exact tier, or,
    /// once the compact tier exists, all of its encoded keys are present
    /// there.
    pub fn contains(&self, item: &[u8]) -> (r: bool)
        ensures
            r == spec_contains(self@, item@),
    {
        if self.memo.contains(item) {
            return true;
        }
        match &self.disk {
            None => false,
            Some(d) => {
                let keys = chunk::item_to_keys(item);
                let mut i: usize = 0;
                while i < keys.len()
                    invariant
                        self.disk == Some(*d),
                        !self@.mem.contains(item@),
                        i <= keys@.len(),
                        keys@.len() == keys_of(item@).len(),
                        forall|j: int| 0 <= j < keys@.len() ==> keys@[j]@ == keys_of(item@)[j],
                        forall|j: int| 0 <= j < i ==> d@.contains(#[trigger] keys_of(item@)[j]),
                    decreases keys@.len() - i,
                {
                    proof {
                        assert(keys@[i as int]@ == keys_of(item@)[i as int]);
                        assert(keys_of(item@)[i as int].len() == 128);
                    }
                    if !d.contains_key(&keys[i]) {
                        proof {
                            assert(!covers(d@, item@));
                        }
                        return false;
                    }
                    i = i + 1;
                }
                proof {
                    assert(covers(d@, item@));
                }
                true
            },
        }
    }

    /// The number of items currently buffered in the exact tier.
    pub fn memo_len(&self) -> (r: usize)
        ensures
            r == self@.mem.len(),
    {
        self.memo.len()
    }

    /// Whether the compact tier has been created (a spill has happened).
    pub fn has_disk(&self) -> (r: bool)
        ensures
            r == (self@.disk is Some),
    {
        self.disk.is_some()
    }

    /// The number of encoded keys the compact tier holds; 0 while it is
    /// absent.
    pub fn disk_len(&self) -> (r: usize)
        requires
            self.wf(),
        ensures
            r == (match self@.disk {
                Some(d) => d.len(),
                None => 0,
            }),
    {
        match &self.disk {
            None => 0,
            Some(d) => d.len(),
        }
    }
}

/// After an insert, the inserted item is contained, whatever the prior state.
pub proof fn lemma_insert_establishes_contains(c: CacheModel, x: Seq<u8>)
    ensures
        spec_contains(spec_insert(c, x), x),
{
    let c1 = if spill_triggered(c, x) {
        spec_spill(c)
    } else {
        c
    };
    if !c1.mem.contains(x) {
        assert(c1.mem.push(x)[c1.mem.len() as int] == x);
    }
}

/// No false negatives: an item the cache contains stays contained across any
/// further insert, however that insert spills or re-arranges the tiers.
pub proof fn lemma_insert_preserves_contains(c: CacheModel, x: Seq<u8>, y: Seq<u8>)
    requires
        spec_contains(c, x),
    ensures
        spec_contains(spec_insert(c, y), x),
{
    let c1 = if spill_triggered(c, y) {
        spec_spill(c)
    } else {
        c
    };
    if spill_triggered(c, y) {
        if c.mem.contains(x) {
            let m = choose|m: int| 0 <= m < c.mem.len() && c.mem[m] == x;
            assert forall|j: int| 0 <= j < keys_of(x).len() implies disk_or_empty(c1).contains(
                #[trigger] keys_of(x)[j],
            ) by {
                assert(keys_of(c.mem[m]).contains(keys_of(x)[j]));
                assert(all_keys(c.mem).contains(keys_of(x)[j]));
            }
        } else {
            assert(covers(disk_or_empty(c), x));
            assert forall|j: int| 0 <= j < keys_of(x).len() implies disk_or_empty(c1).contains(
                #[trigger] keys_of(x)[j],
            ) by {
                assert(disk_or_empty(c).contains(keys_of(x)[j]));
            }
        }
        assert(covers(disk_or_empty(c1), x));
        assert(c1.disk == Some(disk_or_empty(c1)));
    }
    let c2 = spec_insert(c, y);
    if c1.mem.contains(x) {
        if !c1.mem.contains(y) {
            let m = choose|m: int| 0 <= m < c1.mem.len() && c1.mem[m] == x;
            assert(c2.mem[m] == x);
        }
    } else {
        assert(covers(disk_or_empty(c1), x) && c1.disk is Some);
        assert forall|j: int| 0 <= j < keys_of(x).len() implies disk_or_empty(c2).contains(
            #[trigger] keys_of(x)[j],
        ) by {
            assert(disk_or_empty(c1).contains(keys_of(x)[j]));
        }
        assert(c2.disk == Some(disk_or_empty(c2)));
    }
}

/// Idempotent insert, second half: re-inserting an item immediately after
/// inserting it is never reported as newly seen.
pub proof fn lemma_reinsert_not_new(c: CacheModel, x: Seq<u8>)
    ensures
        !spec_insert_new(spec_insert(c, x), x),
{
    let c1 = if spill_triggered(c, x) {
        spec_spill(c)
    } else {
        c
    };
    let c2 = spec_insert(c, x);
    if !c1.mem.contains(x) {
        assert(c2.mem[c1.mem.len() as int] == x);
    }
    assert(c2.mem.contains(x));
    if spill_triggered(c2, x) {
        let c3 = spec_spill(c2);
        let m = choose|m: int| 0 <= m < c2.mem.len() && c2.mem[m] == x;
        assert forall|j: int| 0 <= j < keys_of(x).len() implies disk_or_empty(c3).contains(
            #[trigger] keys_of(x)[j],
        ) by {
            assert(keys_of(c2.mem[m]).contains(keys_of(x)[j]));
            assert(all_keys(c2.mem).contains(keys_of(x)[j]));
        }
        assert(!some_key_new(disk_or_empty(c3), x));
        assert(c3.disk == Some(disk_or_empty(c3)));
    }
}

/// Idempotent insert, first half: an item the cache does not yet contain is
/// reported as newly seen — unless the spill that its own insert triggers
/// covers all of the item's keys with those of colliding spilled items.
pub proof fn lemma_fresh_insert_new(c: CacheModel, x: Seq<u8>)
    requires
        !spec_contains(c, x),
        spill_triggered(c, x) ==> !covers(disk_or_empty(spec_spill(c)), x),
    ensures
        spec_insert_new(c, x),
{
    if spill_triggered(c, x) {
        assert(spec_spill(c).disk == Some(disk_or_empty(spec_spill(c))));
    }
}

/// Budget-triggered migration: when the accumulated size plus the next item's
/// length reaches a nonzero budget, that insert spills — afterwards the
/// compact tier exists and the exact tier holds just the new item.
pub proof fn lemma_budget_spill(c: CacheModel, x: Seq<u8>)
    requires
        c.budget != 0,
        sum_len(c.mem) + x.len() >= c.budget,
    ensures
        spec_insert(c, x).disk is Some,
        spec_insert(c, x).mem == seq![x],
{
    assert(spec_spill(c).mem.push(x) =~= seq![x]);
}

/// Unlimited budget: with budget 0 no insert ever spills, and a compact tier
/// that does not exist is never created.
pub proof fn lemma_unlimited_no_spill(c: CacheModel, x: Seq<u8>)
    requires
        c.budget == 0,
    ensures
        !spill_triggered(c, x),
        c.disk is None ==> spec_insert(c, x).disk is None,
{
}

/// While the compact tier is absent, all answers come from the exact tier.
pub proof fn lemma_contains_memory_only(c: CacheModel, x: Seq<u8>)
    requires
        c.disk is None,
    ensures
        spec_contains(c, x) == c.mem.contains(x),
{
}

/// Single-chunk round trip: an item of 1 to 127 bytes has exactly one encoded
/// key, and once the compact tier exists its presence there is decided by that
/// single key.
pub proof fn lemma_single_chunk_contains(c: CacheModel, x: Seq<u8>)
    requires
        0 < x.len() <= 127,
        c.disk is Some,
    ensures
        keys_of(x).len() == 1,
        keys_of(x)[0] == key_of(x, 0),
        spec_contains(c, x) == (c.mem.contains(x) || disk_or_empty(c).contains(key_of(x, 0))),
{
    assert(chunks_of(x) == seq![x]);
    assert(chunks_of(x)[0] == x);
    if covers(disk_or_empty(c), x) {
        assert(disk_or_empty(c).contains(keys_of(x)[0]));
    }
}

/// Multi-chunk coverage: an item of 300 bytes decomposes into three chunks of
/// 127, 127 and 46 bytes at ordinals 0, 1 and 2, and once the compact tier
/// exists its presence there requires all three keys.
pub proof fn lemma_three_chunk_contains(c: CacheModel, x: Seq<u8>)
    requires
        x.len() == 300,
        c.disk is Some,
    ensures
        keys_of(x).len() == 3,
        keys_of(x)[0] == key_of(x.subrange(0, 127), 0),
        keys_of(x)[1] == key_of(x.subrange(127, 254), 1),
        keys_of(x)[2] == key_of(x.subrange(254, 300), 2),
        spec_contains(c, x) == (c.mem.contains(x) || (disk_or_empty(c).contains(keys_of(x)[0])
            && disk_or_empty(c).contains(keys_of(x)[1]) && disk_or_empty(c).contains(
            keys_of(x)[2],
        ))),
{
    chunk::lemma_chunk_at(x, 0);
    chunk::lemma_chunk_at(x, 1);
    chunk::lemma_chunk_at(x, 2);
    chunk::lemma_chunk_at(x, 3);
    if covers(disk_or_empty(c), x) {
        assert(disk_or_empty(c).contains(keys_of(x)[0]));
        assert(disk_or_empty(c).contains(keys_of(x)[1]));
        assert(disk_or_empty(c).contains(keys_of(x)[2]));
    }
}

} // verus!
