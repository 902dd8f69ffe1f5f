//! A shared bounded record cache, keyed by loglet and offset.
//!
//! Entries are weighed by their key size plus the record's estimated
//! encoded size; the cache holds at most a byte budget of weight and
//! evicts least-recently-added entries beyond it. A budget of zero
//! disables the cache. The cache is best-effort: correctness of readers
//! never depends on a hit, but a hit returns exactly the record that was
//! inserted for the key.

use vstd::prelude::*;

use crate::offsets::LogletOffset;
use crate::record::{Record, RecordView, RECORD_VALUE_OVERHEAD};

verus! {

/// Identifies a loglet across providers.
pub type LogletId = u64;

/// Weight of a cache key: a loglet id and an offset.
pub const CACHE_KEY_WEIGHT: usize = 12;

/// The budget weight of one cached record.
pub open spec fn entry_weight(rec: RecordView) -> int {
    CACHE_KEY_WEIGHT + rec.payload.len() + RECORD_VALUE_OVERHEAD
}

/// Total weight of a run of cache entries.
pub open spec fn total_weight(s: Seq<(LogletId, LogletOffset, Record)>) -> int
    decreases s.len(),
{
    if s.len() == 0 {
        0
    } else {
        total_weight(s.drop_last()) + entry_weight(s.last().2.view())
    }
}

proof fn lemma_total_weight_push(s: Seq<(LogletId, LogletOffset, Record)>, e: (
    LogletId,
    LogletOffset,
    Record,
))
    ensures
        total_weight(s.push(e)) == total_weight(s) + entry_weight(e.2.view()),
{
    assert(s.push(e).drop_last() =~= s);
}

proof fn lemma_total_weight_remove(s: Seq<(LogletId, LogletOffset, Record)>, i: int)
    requires
        0 <= i < s.len(),
    ensures
        total_weight(s.remove(i)) == total_weight(s) - entry_weight(s[i].2.view()),
    decreases s.len(),
{
    if i == s.len() - 1 {
        assert(s.remove(i) =~= s.drop_last());
    } else {
        assert(s.remove(i).drop_last() =~= s.drop_last().remove(i));
        assert(s.remove(i).last() == s.last());
        lemma_total_weight_remove(s.drop_last(), i);
    }
}

proof fn lemma_entry_weight_le_total(s: Seq<(LogletId, LogletOffset, Record)>, i: int)
    requires
        0 <= i < s.len(),
    ensures
        entry_weight(s[i].2.view()) <= total_weight(s),
    decreases s.len(),
{
    if i == s.len() - 1 {
        lemma_total_weight_nonneg(s.drop_last());
    } else {
        lemma_entry_weight_le_total(s.drop_last(), i);
    }
}

proof fn lemma_total_weight_nonneg(s: Seq<(LogletId, LogletOffset, Record)>)
    ensures
        total_weight(s) >= 0,
    decreases s.len(),
{
    if s.len() > 0 {
        lemma_total_weight_nonneg(s.drop_last());
    }
}

/// The record cached under a key, if any.
pub open spec fn cache_lookup(
    s: Seq<(LogletId, LogletOffset, Record)>,
    loglet_id: LogletId,
    offset: LogletOffset,
) -> Option<RecordView> {
    if exists|i: int| 0 <= i < s.len() && s[i].0 == loglet_id && s[i].1 == offset {
        let i = choose|i: int| 0 <= i < s.len() && s[i].0 == loglet_id && s[i].1 == offset;
        Some(s[i].2.view())
    } else {
        None
    }
}

/// A bounded record cache. Entries sit in insertion order, oldest first;
/// eviction removes from the front.
pub struct RecordCache {
    pub budget: usize,
    pub used: usize,
    pub entries: Vec<(LogletId, LogletOffset, Record)>,
}

impl RecordCache {
    /// Keys are unique, the weight bookkeeping is exact and within the
    /// budget, and a disabled cache holds nothing.
    pub open spec fn wf(&self) -> bool {
        &&& forall|i: int, j: int|
            0 <= i < j < self.entries@.len() ==> !(self.entries@[i].0 == self.entries@[j].0
                && self.entries@[i].1 == self.entries@[j].1)
        &&& self.used == total_weight(self.entries@)
        &&& self.used <= self.budget
        &&& self.budget == 0 ==> self.entries@.len() == 0
    }

    /// A cache with the given byte budget; zero disables it.
    pub fn new(memory_budget_bytes: usize) -> (r: Self)
        ensures
            r.wf(),
            r.budget == memory_budget_bytes,
            r.entries@.len() == 0,
    {
        RecordCache { budget: memory_budget_bytes, used: 0, entries: Vec::new() }
    }

    /// The record cached for the key, if the cache still holds it.
    pub fn get(&self, loglet_id: LogletId, offset: LogletOffset) -> (r: Option<Record>)
        requires
            self.wf(),
        ensures
            r matches Some(rec) ==> cache_lookup(self.entries@, loglet_id, offset) == Some(
                rec.view(),
            ),
            r is None ==> cache_lookup(self.entries@, loglet_id, offset) is None,
    {
        let mut i: usize = 0;
        while i < self.entries.len()
            invariant
                self.wf(),
                i <= self.entries@.len(),
                forall|j: int|
                    0 <= j < i ==> !((#[trigger] self.entries@[j]).0 == loglet_id
                        && self.entries@[j].1 == offset),
            decreases self.entries@.len() - i,
        {
            if self.entries[i].0 == loglet_id && self.entries[i].1 == offset {
                let rec = self.entries[i].2.clone();
                proof {
                    lemma_cache_lookup_at(self.entries@, loglet_id, offset, i as int);
                }
                return Some(rec);
            }
            i += 1;
        }
        proof {
            if cache_lookup(self.entries@, loglet_id, offset) is Some {
                let w = choose|w: int|
                    0 <= w < self.entries@.len() && self.entries@[w].0 == loglet_id
                        && self.entries@[w].1 == offset;
                assert(false);
            }
        }
        None
    }

    /// Writes a record to the cache. The entry replaces any older one
    /// under the same key; entries are evicted oldest-first until the
    /// budget holds. A record too heavy for the whole budget does not
    /// stay; a disabled cache ignores the call.
    pub fn add(&mut self, loglet_id: LogletId, offset: LogletOffset, record: Record)
        requires
            old(self).wf(),
            old(self).budget + entry_weight(record@) <= usize::MAX,
        ensures
            final(self).wf(),
            final(self).budget == old(self).budget,
            old(self).budget == 0 ==> *final(self) == *old(self),
            old(self).budget > 0 && entry_weight(record@) <= old(self).budget ==> cache_lookup(
                final(self).entries@,
                loglet_id,
                offset,
            ) == Some(record@),
            // Whatever the eviction order, the key afterwards holds this
            // record or nothing: never a stale one.
            cache_lookup(final(self).entries@, loglet_id, offset) is None || cache_lookup(
                final(self).entries@,
                loglet_id,
                offset,
            ) == Some(record@),
            // Every other key keeps its record, or lost it to eviction.
            forall|l2: LogletId, o2: LogletOffset|
                !(l2 == loglet_id && o2 == offset) ==> (#[trigger] cache_lookup(
                    final(self).entries@,
                    l2,
                    o2,
                )) == cache_lookup(old(self).entries@, l2, o2) || cache_lookup(
                    final(self).entries@,
                    l2,
                    o2,
                ) is None,
    {
        if self.budget == 0 {
            return ;
        }
        // Replace any entry under the same key.
        let mut i: usize = 0;
        let mut found: Option<usize> = None;
        while i < self.entries.len() && found.is_none()
            invariant
                self.wf(),
                *self == *old(self),
                i <= self.entries@.len(),
                found matches Some(f) ==> f < self.entries@.len() && self.entries@[
                    f as int].0 == loglet_id && self.entries@[f as int].1 == offset,
                found is None ==> forall|j: int|
                    0 <= j < i ==> !((#[trigger] self.entries@[j]).0 == loglet_id
                        && self.entries@[j].1 == offset),
            decreases self.entries@.len() - i, (if found is None {
                1int
            } else {
                0int
            }),
        {
            if self.entries[i].0 == loglet_id && self.entries[i].1 == offset {
                found = Some(i);
            } else {
                i += 1;
            }
        }
        if let Some(f) = found {
            let ghost pre = self.entries@;
            proof {
                lemma_entry_weight_le_total(pre, f as int);
            }
            let removed = self.entries.remove(f);
            self.used = self.used - removed.2.estimated_encode_size() - CACHE_KEY_WEIGHT;
            proof {
                lemma_total_weight_remove(pre, f as int);
                lemma_total_weight_nonneg(self.entries@);
                assert forall|a: int, b: int|
                    0 <= a < b < self.entries@.len() implies !(self.entries@[a].0
                    == self.entries@[b].0 && self.entries@[a].1 == self.entries@[b].1) by {
                    if a < f {
                        assert(self.entries@[a] == pre[a]);
                    } else {
                        assert(self.entries@[a] == pre[a + 1]);
                    }
                    if b < f {
                        assert(self.entries@[b] == pre[b]);
                    } else {
                        assert(self.entries@[b] == pre[b + 1]);
                    }
                }
            }
        }
        let weight = record.estimated_encode_size() + CACHE_KEY_WEIGHT;
        let ghost rv = record@;
        let ghost before_push = self.entries@;
        self.entries.push((loglet_id, offset, record));
        self.used = self.used + weight;
        proof {
            lemma_total_weight_push(before_push, self.entries@.last());
            assert forall|a: int, b: int|
                0 <= a < b < self.entries@.len() implies !(self.entries@[a].0 == self.entries@[
                b].0 && self.entries@[a].1 == self.entries@[b].1) by {
                if b == self.entries@.len() - 1 {
                    assert(self.entries@[a] == before_push[a]);
                }
            }
            assert forall|a: int|
                0 <= a < self.entries@.len() - 1 implies old(self).entries@.contains(
                #[trigger] self.entries@[a]) by {
                assert(self.entries@[a] == before_push[a]);
                if found is Some {
                    let f = found->Some_0;
                    if a < f {
                        assert(before_push[a] == old(self).entries@[a as int]);
                    } else {
                        assert(before_push[a] == old(self).entries@[a + 1]);
                    }
                } else {
                    assert(before_push[a] == old(self).entries@[a]);
                }
            }
        }
        // Evict oldest entries until the budget holds.
        while self.used > self.budget && self.entries.len() > 0
            invariant
                self.budget == old(self).budget,
                self.used == total_weight(self.entries@),
                forall|a: int, b: int|
                    0 <= a < b < self.entries@.len() ==> !(self.entries@[a].0 == self.entries@[
                    b].0 && self.entries@[a].1 == self.entries@[b].1),
                self.entries@.len() > 0 ==> (self.entries@.last().0 == loglet_id
                    && self.entries@.last().1 == offset && self.entries@.last().2.view() == rv),
                self.used <= self.budget + entry_weight(rv),
                self.used > self.budget ==> self.entries@.len() > 0,
                self.entries@.len() == 1 ==> self.used == entry_weight(rv),
                entry_weight(rv) <= self.budget ==> self.entries@.len() > 0,
                forall|a: int|
                    0 <= a < self.entries@.len() - 1 ==> old(self).entries@.contains(
                        #[trigger] self.entries@[a],
                    ),
            decreases self.entries@.len(),
        {
            let ghost pre = self.entries@;
            proof {
                lemma_entry_weight_le_total(pre, 0);
            }
            let victim = self.entries.remove(0);
            self.used = self.used - victim.2.estimated_encode_size() - CACHE_KEY_WEIGHT;
            proof {
                lemma_total_weight_remove(pre, 0);
                lemma_total_weight_nonneg(self.entries@);
                assert forall|a: int, b: int|
                    0 <= a < b < self.entries@.len() implies !(self.entries@[a].0
                    == self.entries@[b].0 && self.entries@[a].1 == self.entries@[b].1) by {
                    assert(self.entries@[a] == pre[a + 1]);
                    assert(self.entries@[b] == pre[b + 1]);
                }
                if self.entries@.len() > 0 {
                    assert(self.entries@.last() == pre.last());
                }
                if self.entries@.len() == 1 {
                    assert(self.entries@.drop_last().len() == 0);
                    assert(total_weight(self.entries@.drop_last()) == 0);
                    assert(self.used == entry_weight(self.entries@.last().2.view()));
                }
                if entry_weight(rv) <= self.budget {
                    assert(pre.len() > 1) by {
                        if pre.len() == 1 {
                            assert(total_weight(pre) == entry_weight(rv));
                        }
                    }
                }
                assert forall|a: int|
                    0 <= a < self.entries@.len() - 1 implies old(self).entries@.contains(
                    #[trigger] self.entries@[a]) by {
                    assert(self.entries@[a] == pre[a + 1]);
                }
            }
        }
        proof {
            lemma_total_weight_nonneg(self.entries@);
            if self.entries@.len() > 0 {
                lemma_cache_lookup_at(
                    self.entries@,
                    loglet_id,
                    offset,
                    self.entries@.len() - 1,
                );
            }
            assert forall|l2: LogletId, o2: LogletOffset|
                !(l2 == loglet_id && o2 == offset) implies (#[trigger] cache_lookup(
                self.entries@,
                l2,
                o2,
            )) == cache_lookup(old(self).entries@, l2, o2) || cache_lookup(
                self.entries@,
                l2,
                o2,
            ) is None by {
                if cache_lookup(self.entries@, l2, o2) is Some {
                    let w = choose|w: int|
                        0 <= w < self.entries@.len() && self.entries@[w].0 == l2
                            && self.entries@[w].1 == o2;
                    assert(self.entries@.len() > 0);
                    assert(w < self.entries@.len() - 1);
                    assert(old(self).entries@.contains(self.entries@[w]));
                    let wo = choose|wo: int|
                        0 <= wo < old(self).entries@.len() && old(self).entries@[wo]
                            == self.entries@[w];
                    lemma_cache_lookup_at(old(self).entries@, l2, o2, wo);
                    lemma_cache_lookup_at(self.entries@, l2, o2, w);
                }
            }
        }
    }

    /// Writes a run of records at consecutive offsets, as the sequencer
    /// does after a successful replication: each record lands under its
    /// own offset exactly as one `add` per record would put it, so a key
    /// afterwards holds its own record or nothing, never another one;
    /// the last record stays whenever its weight fits the budget.
    pub fn extend(&mut self, loglet_id: LogletId, first_offset: LogletOffset, records: &Vec<
        Record,
    >)
        requires
            old(self).wf(),
            first_offset + records@.len() <= LogletOffset::MAX,
            forall|k: int|
                0 <= k < records@.len() ==> old(self).budget + entry_weight(
                    (#[trigger] records@[k])@,
                ) <= usize::MAX,
        ensures
            final(self).wf(),
            final(self).budget == old(self).budget,
            forall|k: int|
                0 <= k < records@.len() ==> (#[trigger] cache_lookup(
                    final(self).entries@,
                    loglet_id,
                    ((first_offset + k) as LogletOffset),
                )) == Some(records@[k]@) || cache_lookup(
                    final(self).entries@,
                    loglet_id,
                    ((first_offset + k) as LogletOffset),
                ) is None,
            records@.len() > 0 && old(self).budget > 0 && entry_weight(
                records@[records@.len() - 1]@,
            ) <= old(self).budget ==> cache_lookup(
                final(self).entries@,
                loglet_id,
                ((first_offset + records@.len() - 1) as LogletOffset),
            ) == Some(records@[records@.len() - 1]@),
    {
        let mut k: usize = 0;
        while k < records.len()
            invariant
                self.wf(),
                self.budget == old(self).budget,
                k <= records@.len(),
                first_offset + records@.len() <= LogletOffset::MAX,
                forall|k2: int|
                    0 <= k2 < records@.len() ==> old(self).budget + entry_weight(
                        (#[trigger] records@[k2])@,
                    ) <= usize::MAX,
                forall|j: int|
                    0 <= j < k ==> (#[trigger] cache_lookup(
                        self.entries@,
                        loglet_id,
                        ((first_offset + j) as LogletOffset),
                    )) == Some(records@[j]@) || cache_lookup(
                        self.entries@,
                        loglet_id,
                        ((first_offset + j) as LogletOffset),
                    ) is None,
                k > 0 && self.budget > 0 && entry_weight(records@[k - 1]@) <= self.budget
                    ==> cache_lookup(
                    self.entries@,
                    loglet_id,
                    ((first_offset + k - 1) as LogletOffset),
                ) == Some(records@[k - 1]@),
            decreases records@.len() - k,
        {
            let ghost before = self.entries@;
            let rec = records[k].clone();
            self.add(loglet_id, first_offset + k as u32, rec);
            k += 1;
            proof {
                let kk = k - 1;
                let key_off = (first_offset + kk) as LogletOffset;
                assert forall|j: int|
                    0 <= j < k implies (#[trigger] cache_lookup(
                    self.entries@,
                    loglet_id,
                    ((first_offset + j) as LogletOffset),
                )) == Some(records@[j]@) || cache_lookup(
                    self.entries@,
                    loglet_id,
                    ((first_offset + j) as LogletOffset),
                ) is None by {
                    if j < kk {
                        assert(((first_offset + j) as LogletOffset) != key_off);
                        assert(cache_lookup(
                            self.entries@,
                            loglet_id,
                            ((first_offset + j) as LogletOffset),
                        ) == cache_lookup(
                            before,
                            loglet_id,
                            ((first_offset + j) as LogletOffset),
                        ) || cache_lookup(
                            self.entries@,
                            loglet_id,
                            ((first_offset + j) as LogletOffset),
                        ) is None);
                    } else {
                        assert(rec@ == records@[kk]@);
                    }
                }
            }
        }
    }
}

/// If the entry at `i` carries the key, the lookup returns its record:
/// keys are unique in a well-formed run of entries.
proof fn lemma_cache_lookup_at(
    s: Seq<(LogletId, LogletOffset, Record)>,
    loglet_id: LogletId,
    offset: LogletOffset,
    i: int,
)
    requires
        0 <= i < s.len(),
        s[i].0 == loglet_id,
        s[i].1 == offset,
        forall|a: int, b: int|
            0 <= a < b < s.len() ==> !(s[a].0 == s[b].0 && s[a].1 == s[b].1),
    ensures
        cache_lookup(s, loglet_id, offset) == Some(s[i].2.view()),
{
    let w = choose|w: int| 0 <= w < s.len() && s[w].0 == loglet_id && s[w].1 == offset;
    if w < i {
        assert(!(s[w].0 == s[i].0 && s[w].1 == s[i].1));
    } else if i < w {
        assert(!(s[i].0 == s[w].0 && s[i].1 == s[w].1));
    }
}

} // verus!
