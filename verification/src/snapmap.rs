//! A snapshot-indexed map: each key owns its own append-only changelog.
//! Keys are kept sorted, which gives deterministic ascending iteration for
//! paginated listings.

use vstd::prelude::*;
use crate::snapshot::Changelog;

verus! {

/// One keyed slot together with its full history.
pub struct SnapEntry<V> {
    pub key: u64,
    pub log: Changelog<V>,
}

/// A map from `u64` keys to snapshot-indexed values, sorted by key.
pub struct SnapshotMap<V> {
    pub entries: Vec<SnapEntry<V>>,
}

impl<V> SnapshotMap<V> {
    /// Keys strictly increase, and every slot has a well-formed, non-empty
    /// changelog.
    pub open spec fn wf(self) -> bool {
        &&& forall|i: int, j: int|
            0 <= i < j < self.entries@.len() ==> self.entries@[i].key < self.entries@[j].key
        &&& forall|i: int|
            0 <= i < self.entries@.len() ==> (#[trigger] self.entries@[i]).log.wf()
        &&& forall|i: int|
            0 <= i < self.entries@.len() ==> (#[trigger] self.entries@[i]).log.is_written()
    }

    pub open spec fn contains_key(self, key: u64) -> bool {
        exists|i: int| 0 <= i < self.entries@.len() && self.entries@[i].key == key
    }

    /// The position of `key` among the entries; meaningful only when
    /// `contains_key(key)` holds.
    pub open spec fn index_of(self, key: u64) -> int {
        choose|i: int| 0 <= i < self.entries@.len() && self.entries@[i].key == key
    }

    pub open spec fn log_of(self, key: u64) -> Changelog<V> {
        self.entries@[self.index_of(key)].log
    }

    /// The value recorded for `key` in force at height `h`.
    pub open spec fn value_at(self, key: u64, h: u64) -> Option<V> {
        if self.contains_key(key) {
            self.log_of(key).value_at(h)
        } else {
            None
        }
    }

    /// The most recently recorded value for `key`.
    pub open spec fn current(self, key: u64) -> Option<V> {
        if self.contains_key(key) {
            self.log_of(key).current()
        } else {
            None
        }
    }

    /// Height of the most recent write to `key`; -1 when `key` is absent.
    pub open spec fn latest_height_of(self, key: u64) -> int {
        if self.contains_key(key) {
            self.log_of(key).latest_height()
        } else {
            -1
        }
    }

    pub fn new() -> (m: SnapshotMap<V>)
        ensures
            m.wf(),
            m.entries@.len() == 0,
            forall|k: u64| !m.contains_key(k),
    {
        SnapshotMap { entries: Vec::new() }
    }

    /// The first position whose key is at least `key`.
    pub fn lower_bound(&self, key: u64) -> (i: usize)
        requires
            self.wf(),
        ensures
            i <= self.entries@.len(),
            forall|k: int| 0 <= k < i ==> self.entries@[k].key < key,
            forall|k: int| i <= k < self.entries@.len() ==> self.entries@[k].key >= key,
    {
        let mut lo: usize = 0;
        let mut hi: usize = self.entries.len();
        while lo < hi
            invariant
                lo <= hi <= self.entries@.len(),
                self.wf(),
                forall|k: int| 0 <= k < lo ==> self.entries@[k].key < key,
                forall|k: int| hi <= k < self.entries@.len() ==> self.entries@[k].key >= key,
            decreases hi - lo,
        {
            let mid = lo + (hi - lo) / 2;
            if self.entries[mid].key < key {
                lo = mid + 1;
            } else {
                hi = mid;
            }
        }
        lo
    }

    /// The first position whose key exceeds `key`.
    pub fn upper_bound(&self, key: u64) -> (i: usize)
        requires
            self.wf(),
        ensures
            i <= self.entries@.len(),
            forall|k: int| 0 <= k < i ==> self.entries@[k].key <= key,
            forall|k: int| i <= k < self.entries@.len() ==> self.entries@[k].key > key,
    {
        let mut lo: usize = 0;
        let mut hi: usize = self.entries.len();
        while lo < hi
            invariant
                lo <= hi <= self.entries@.len(),
                self.wf(),
                forall|k: int| 0 <= k < lo ==> self.entries@[k].key <= key,
                forall|k: int| hi <= k < self.entries@.len() ==> self.entries@[k].key > key,
            decreases hi - lo,
        {
            let mid = lo + (hi - lo) / 2;
            if self.entries[mid].key <= key {
                lo = mid + 1;
            } else {
                hi = mid;
            }
        }
        lo
    }

    /// Record `value` as the state of `key` from `height` on, creating the
    /// slot if `key` was never written.
    pub fn save(&mut self, key: u64, height: u64, value: V)
        requires
            old(self).wf(),
            old(self).latest_height_of(key) <= height as int,
        ensures
            final(self).wf(),
            final(self).contains_key(key),
            forall|k: u64|
                k != key ==> (final(self).contains_key(k) <==> old(self).contains_key(k)),
            forall|k: u64|
                k != key && old(self).contains_key(k) ==> final(self).log_of(k) == old(
                    self,
                ).log_of(k),
            forall|h: u64| h < height ==> final(self).value_at(key, h) == old(self).value_at(key, h),
            forall|h: u64| height <= h ==> final(self).value_at(key, h) == Some(value),
            final(self).current(key) == Some(value),
            final(self).latest_height_of(key) == height as int,
            old(self).contains_key(key) ==> {
                &&& final(self).entries@.len() == old(self).entries@.len()
                &&& final(self).index_of(key) == old(self).index_of(key)
                &&& forall|j: int|
                    0 <= j < old(self).entries@.len() && j != old(self).index_of(key)
                        ==> final(self).entries@[j] == old(self).entries@[j]
            },
            !old(self).contains_key(key) ==> {
                &&& final(self).entries@.len() == old(self).entries@.len() + 1
                &&& 0 <= final(self).index_of(key) < final(self).entries@.len()
                &&& final(self).entries@.remove(final(self).index_of(key)) =~= old(self).entries@
            },
    {
        let i = self.lower_bound(key);
        let n = self.entries.len();
        if i < n && self.entries[i].key == key {
            proof {
                lemma_map_index_unique(*self, i as int);
            }
            let mut entry = self.entries.remove(i);
            entry.log.save(height, value);
            self.entries.insert(i, entry);
            proof {
                let s0 = old(self).entries@;
                let s1 = self.entries@;
                assert(s1 =~= s0.update(i as int, s1[i as int]));
                assert(s1[i as int].key == key);
                assert forall|a: int, b: int| 0 <= a < b < s1.len() implies s1[a].key
                    < s1[b].key by {
                    assert(s0[a].key < s0[b].key);
                }
                assert(self.wf());
                lemma_map_index_unique(*self, i as int);
                assert forall|k: u64| k != key && old(self).contains_key(k) implies
                    self.contains_key(k) && self.log_of(k) == old(self).log_of(k) by {
                    let jk = old(self).index_of(k);
                    lemma_map_index_unique(*old(self), jk);
                    assert(s1[jk] == s0[jk]);
                    lemma_map_index_unique(*self, jk);
                }
                assert forall|k: u64| k != key && self.contains_key(k) implies
                    old(self).contains_key(k) by {
                    let jk = self.index_of(k);
                    lemma_map_index_unique(*self, jk);
                    assert(s0[jk].key == k);
                }
            }
        } else {
            let mut log = Changelog::new();
            log.save(height, value);
            self.entries.insert(i, SnapEntry { key, log });
            proof {
                let s0 = old(self).entries@;
                let s1 = self.entries@;
                assert(!old(self).contains_key(key));
                assert forall|a: int, b: int| 0 <= a < b < s1.len() implies s1[a].key
                    < s1[b].key by {
                    if b < i as int {
                        assert(s1[a] == s0[a] && s1[b] == s0[b]);
                    } else if a < i as int && b == i as int {
                        assert(s1[a] == s0[a]);
                    } else if a < i as int && b > i as int {
                        assert(s1[a] == s0[a] && s1[b] == s0[b - 1]);
                    } else if a == i as int && b > i as int {
                        assert(s1[b] == s0[b - 1]);
                    } else {
                        assert(s1[a] == s0[a - 1] && s1[b] == s0[b - 1]);
                    }
                }
                assert(self.wf());
                lemma_map_index_unique(*self, i as int);
                assert(self.entries@.remove(i as int) =~= old(self).entries@);
                assert forall|k: u64| k != key && old(self).contains_key(k) implies
                    self.contains_key(k) && self.log_of(k) == old(self).log_of(k) by {
                    let jk = old(self).index_of(k);
                    lemma_map_index_unique(*old(self), jk);
                    if jk < i as int {
                        assert(s1[jk] == s0[jk]);
                        lemma_map_index_unique(*self, jk);
                    } else {
                        assert(s1[jk + 1] == s0[jk]);
                        lemma_map_index_unique(*self, jk + 1);
                    }
                }
                assert forall|k: u64| k != key && self.contains_key(k) implies
                    old(self).contains_key(k) by {
                    let jk = self.index_of(k);
                    lemma_map_index_unique(*self, jk);
                    if jk < i as int {
                        assert(s0[jk].key == k);
                    } else {
                        assert(s0[jk - 1].key == k);
                    }
                }
            }
        }
    }

    /// The most recently recorded value for `key`, if the slot exists.
    pub fn get(&self, key: u64) -> (r: Option<&V>)
        requires
            self.wf(),
        ensures
            r is Some <==> self.contains_key(key),
            r matches Some(v) ==> self.current(key) == Some(*v),
    {
        let i = self.lower_bound(key);
        if i < self.entries.len() && self.entries[i].key == key {
            proof {
                lemma_map_index_unique(*self, i as int);
            }
            match self.entries[i].log.load() {
                Some(v) => Some(v),
                None => None,
            }
        } else {
            proof {
                if self.contains_key(key) {
                    let j = self.index_of(key);
                    lemma_map_index_unique(*self, j);
                }
            }
            None
        }
    }

    /// The value recorded for `key` in force at `height`, if any.
    pub fn get_at_height(&self, key: u64, height: u64) -> (r: Option<&V>)
        requires
            self.wf(),
        ensures
            r is Some <==> self.value_at(key, height) is Some,
            r matches Some(v) ==> self.value_at(key, height) == Some(*v),
    {
        let i = self.lower_bound(key);
        if i < self.entries.len() && self.entries[i].key == key {
            proof {
                lemma_map_index_unique(*self, i as int);
            }
            self.entries[i].log.load_at_height(height)
        } else {
            proof {
                if self.contains_key(key) {
                    let j = self.index_of(key);
                    lemma_map_index_unique(*self, j);
                }
            }
            None
        }
    }
}

/// In a well-formed map each key occurs at exactly one position, so
/// `index_of` agrees with any position where the key is found.
pub proof fn lemma_map_index_unique<V>(m: SnapshotMap<V>, i: int)
    requires
        m.wf(),
        0 <= i < m.entries@.len(),
    ensures
        m.contains_key(m.entries@[i].key),
        m.index_of(m.entries@[i].key) == i,
{
    let key = m.entries@[i].key;
    assert(m.contains_key(key));
    let j = m.index_of(key);
    assert(0 <= j < m.entries@.len() && m.entries@[j].key == key);
    if j < i {
        assert(m.entries@[j].key < m.entries@[i].key);
    } else if j > i {
        assert(m.entries@[i].key < m.entries@[j].key);
    }
}

} // verus!
