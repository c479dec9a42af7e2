//! Snapshot-indexed storage: an append-only changelog of (height, value)
//! writes. A write at height `h` is visible to reads at every height `>= h`
//! until superseded by a later write. Reads at a past height binary-search
//! the changelog for the latest entry at or below that height.

use vstd::prelude::*;

verus! {

/// One recorded write in a changelog: `value` took effect at block `height`.
pub struct ChangeEntry<V> {
    pub height: u64,
    pub value: V,
}

/// The entry in force at height `h`: the latest entry of `s` whose height is
/// at most `h`, if any.
pub open spec fn entry_in_force<V>(s: Seq<ChangeEntry<V>>, h: u64) -> Option<ChangeEntry<V>>
    decreases s.len(),
{
    if s.len() == 0 {
        None
    } else if s.last().height <= h {
        Some(s.last())
    } else {
        entry_in_force(s.drop_last(), h)
    }
}

/// Entries at an index `i` or beyond all lie above height `h`, so they do not
/// affect which entry is in force at `h`.
pub proof fn lemma_in_force_ignores_high_tail<V>(s: Seq<ChangeEntry<V>>, h: u64, i: int)
    requires
        0 <= i <= s.len(),
        forall|k: int| i <= k < s.len() ==> s[k].height > h,
    ensures
        entry_in_force(s, h) == entry_in_force(s.take(i), h),
    decreases s.len() - i,
{
    if i < s.len() {
        assert(s.last().height > h);
        assert(s.drop_last() =~= s.take(s.len() - 1));
        lemma_in_force_ignores_high_tail(s.take(s.len() - 1), h, i);
        assert(s.take(s.len() - 1).take(i) =~= s.take(i));
    } else {
        assert(s.take(i) =~= s);
    }
}

/// The versioned history of one stored value: an append-only changelog with
/// strictly increasing heights.
pub struct Changelog<V> {
    pub entries: Vec<ChangeEntry<V>>,
}

impl<V> Changelog<V> {
    /// Heights are strictly increasing along the changelog.
    pub open spec fn wf(self) -> bool {
        forall|i: int, j: int|
            0 <= i < j < self.entries@.len()
                ==> self.entries@[i].height < self.entries@[j].height
    }

    /// Height of the most recent write; -1 when nothing was written yet.
    pub open spec fn latest_height(self) -> int {
        if self.entries@.len() == 0 {
            -1
        } else {
            self.entries@.last().height as int
        }
    }

    pub open spec fn is_written(self) -> bool {
        self.entries@.len() > 0
    }

    /// The value in force at height `h`.
    pub open spec fn value_at(self, h: u64) -> Option<V> {
        match entry_in_force(self.entries@, h) {
            Some(e) => Some(e.value),
            None => None,
        }
    }

    /// The value of the most recent write.
    pub open spec fn current(self) -> Option<V> {
        if self.entries@.len() == 0 {
            None
        } else {
            Some(self.entries@.last().value)
        }
    }

    pub fn new() -> (log: Changelog<V>)
        ensures
            log.wf(),
            !log.is_written(),
            forall|h: u64| log.value_at(h) is None,
    {
        Changelog { entries: Vec::new() }
    }

    /// Record `value` as the state of this slot from `height` on. A second
    /// write at the same height supersedes the first.
    pub fn save(&mut self, height: u64, value: V)
        requires
            old(self).wf(),
            old(self).latest_height() <= height as int,
        ensures
            final(self).wf(),
            final(self).is_written(),
            final(self).latest_height() == height as int,
            final(self).current() == Some(value),
            forall|h: u64| h < height ==> final(self).value_at(h) == old(self).value_at(h),
            forall|h: u64| height <= h ==> final(self).value_at(h) == Some(value),
    {
        let n = self.entries.len();
        if n > 0 && self.entries[n - 1].height == height {
            self.entries.pop();
            self.entries.push(ChangeEntry { height, value });
            proof {
                let s0 = old(self).entries@;
                let s1 = self.entries@;
                assert(s1.drop_last() =~= s0.drop_last());
                assert forall|h: u64| h < height implies self.value_at(h) == old(self).value_at(
                    h,
                ) by {
                    assert(s1.last().height > h);
                    assert(s0.last().height > h);
                }
            }
        } else {
            self.entries.push(ChangeEntry { height, value });
            proof {
                let s0 = old(self).entries@;
                let s1 = self.entries@;
                assert(s1.drop_last() =~= s0);
                assert forall|h: u64| h < height implies self.value_at(h) == old(self).value_at(
                    h,
                ) by {
                    assert(s1.last().height > h);
                }
            }
        }
    }

    /// The most recent write, if any.
    pub fn load(&self) -> (r: Option<&V>)
        ensures
            self.is_written() ==> (r matches Some(v) && self.current() == Some(*v)),
            !self.is_written() ==> r is None,
    {
        let n = self.entries.len();
        if n == 0 {
            None
        } else {
            Some(&self.entries[n - 1].value)
        }
    }

    /// The entry in force at `height`, found by binary search.
    pub fn entry_at_height(&self, height: u64) -> (r: Option<&ChangeEntry<V>>)
        requires
            self.wf(),
        ensures
            r is Some <==> entry_in_force(self.entries@, height) is Some,
            r matches Some(e) ==> entry_in_force(self.entries@, height) == Some(*e),
    {
        let mut lo: usize = 0;
        let mut hi: usize = self.entries.len();
        while lo < hi
            invariant
                lo <= hi <= self.entries@.len(),
                self.wf(),
                forall|k: int| 0 <= k < lo ==> self.entries@[k].height <= height,
                forall|k: int| hi <= k < self.entries@.len() ==> self.entries@[k].height > height,
            decreases hi - lo,
        {
            let mid = lo + (hi - lo) / 2;
            if self.entries[mid].height <= height {
                lo = mid + 1;
            } else {
                hi = mid;
            }
        }
        proof {
            lemma_in_force_ignores_high_tail(self.entries@, height, lo as int);
            if lo > 0 {
                assert(self.entries@.take(lo as int).last() == self.entries@[lo as int - 1]);
            }
        }
        if lo == 0 {
            None
        } else {
            Some(&self.entries[lo - 1])
        }
    }

    /// The value in force at `height`, if any.
    pub fn load_at_height(&self, height: u64) -> (r: Option<&V>)
        requires
            self.wf(),
        ensures
            r is Some <==> self.value_at(height) is Some,
            r matches Some(v) ==> self.value_at(height) == Some(*v),
    {
        match self.entry_at_height(height) {
            Some(e) => Some(&e.value),
            None => None,
        }
    }
}

/// Every height at or beyond the latest write reads the current value.
pub proof fn lemma_current_in_force<V>(log: Changelog<V>, h: u64)
    requires
        log.latest_height() <= h as int,
    ensures
        log.value_at(h) == log.current(),
{
}

} // verus!
