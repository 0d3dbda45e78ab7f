//! Bounded, time-windowed memory of recently seen message fingerprints.
//!
//! A fingerprint is the pair (publisher, sequence number) that every wire
//! publish carries; the publisher assigns sequence numbers at publish time, so
//! two distinct publishes never share a fingerprint even when their payloads
//! are equal.  The cache answers whether a fingerprint was seen within the
//! sliding window and forgets older entries lazily on insert, which bounds
//! memory without a background timer.

use vstd::prelude::*;
use crate::PeerNum;

verus! {

/// One remembered fingerprint and the time it was last inserted.
pub struct CacheEntry {
    /// Publisher half of the fingerprint.
    pub from: PeerNum,
    /// Sequence-number half of the fingerprint.
    pub seq: u64,
    /// Clock reading at the most recent insert of this fingerprint.
    pub at: u64,
}

/// Sliding-window duplicate-suppression cache.
pub struct MessageCache {
    /// Width of the window: an entry inserted at time `t` answers `seen`
    /// until time `t + window` inclusive.
    pub window: u64,
    /// Remembered entries; stale ones are dropped lazily on insert.
    pub entries: Vec<CacheEntry>,
}

impl MessageCache {
    /// An entry inserted at `at` is still within the window at time `now`.
    /// A reading from the future (`at > now`) counts as within the window.
    pub open spec fn spec_fresh(&self, at: u64, now: u64) -> bool {
        at + self.window >= now
    }

    /// The fingerprint `(from, seq)` counts as seen at time `now`.
    pub open spec fn spec_seen(&self, from: PeerNum, seq: u64, now: u64) -> bool {
        exists|i: int|
            0 <= i < self.entries.len() && (#[trigger] self.entries[i]).from == from
                && self.entries[i].seq == seq && self.spec_fresh(self.entries[i].at, now)
    }

    /// A cache with the given window and nothing remembered.
    pub fn new(window: u64) -> (r: MessageCache)
        ensures
            r.window == window,
            forall|f: PeerNum, s: u64, t: u64| !r.spec_seen(f, s, t),
    {
        MessageCache { window, entries: Vec::new() }
    }

    /// Membership test: was `(from, seq)` inserted within the window?
    pub fn seen(&self, from: PeerNum, seq: u64, now: u64) -> (r: bool)
        ensures
            r == self.spec_seen(from, seq, now),
    {
        let mut i: usize = 0;
        while i < self.entries.len()
            invariant
                i <= self.entries.len(),
                forall|j: int|
                    0 <= j < i ==> !((#[trigger] self.entries[j]).from == from
                        && self.entries[j].seq == seq && self.spec_fresh(self.entries[j].at, now)),
            decreases self.entries.len() - i,
        {
            let e = &self.entries[i];
            if e.from == from && e.seq == seq && Self::within(e.at, self.window, now) {
                return true;
            }
            i += 1;
        }
        false
    }

    /// Executable form of `spec_fresh`, free of overflow.
    fn within(at: u64, window: u64, now: u64) -> (r: bool)
        ensures
            r == (at + window >= now),
    {
        if at >= now {
            true
        } else {
            now - at <= window
        }
    }

    /// Remember `(from, seq)` as of time `now`, refreshing the entry if it is
    /// already present and discarding every entry that has left the window.
    ///
    /// Afterwards the fingerprint answers `seen` at any time up to
    /// `now + window`; every other fingerprint keeps, at any time from `now`
    /// on, exactly the answer it had before.
    pub fn insert(&mut self, from: PeerNum, seq: u64, now: u64)
        ensures
            final(self).window == old(self).window,
            forall|t: u64|
                now <= t ==> (final(self).spec_seen(from, seq, t) <==> t <= now
                    + old(self).window),
            forall|f: PeerNum, s: u64, t: u64|
                now <= t && !(f == from && s == seq)
                    ==> (final(self).spec_seen(f, s, t) <==> old(self).spec_seen(f, s, t)),
    {
        let ghost orig = self.entries@;
        let ghost w = self.window;
        let mut kept: Vec<CacheEntry> = Vec::new();
        let mut i: usize = 0;
        while i < self.entries.len()
            invariant
                self.entries@ == orig,
                self.window == w,
                i <= orig.len(),
                forall|k: int|
                    0 <= k < kept.len() ==> kept_from(orig, #[trigger] kept[k], from, seq, now, w),
                forall|j: int|
                    0 <= j < i && (#[trigger] orig[j]).at + w >= now
                        && !(orig[j].from == from && orig[j].seq == seq)
                        ==> kept@.contains(orig[j]),
            decreases self.entries.len() - i,
        {
            let e = &self.entries[i];
            let fresh_now = Self::within(e.at, self.window, now);
            let is_key = e.from == from && e.seq == seq;
            if fresh_now && !is_key {
                let ghost kept0 = kept@;
                kept.push(CacheEntry { from: e.from, seq: e.seq, at: e.at });
                proof {
                    assert(forall|k: int| 0 <= k < kept0.len() ==> #[trigger] kept[k] == kept0[k]);
                    assert(kept[kept.len() - 1] == orig[i as int]);
                    assert(orig.contains(orig[i as int]));
                    assert forall|j: int|
                        0 <= j <= i && (#[trigger] orig[j]).at + w >= now
                            && !(orig[j].from == from && orig[j].seq == seq)
                            implies kept@.contains(orig[j]) by {
                        if j < i {
                            let k = choose|k: int| 0 <= k < kept0.len() && kept0[k] == orig[j];
                            assert(kept[k] == orig[j]);
                        } else {
                            assert(kept[kept.len() - 1] == orig[j]);
                        }
                    }
                }
            }
            i += 1;
        }
        let ghost kept_pre = kept@;
        kept.push(CacheEntry { from, seq, at: now });
        self.entries = kept;
        proof {
            let n = self.entries.len() as int;
            assert(forall|k: int|
                0 <= k < kept_pre.len() ==> #[trigger] self.entries[k] == kept_pre[k]);
            assert(self.entries[n - 1].from == from && self.entries[n - 1].seq == seq
                && self.entries[n - 1].at == now);
            assert forall|t: u64| now <= t && t <= now + w implies self.spec_seen(from, seq, t) by {
                assert(self.spec_fresh(self.entries[n - 1].at, t));
            }
            assert forall|t: u64| now <= t && self.spec_seen(from, seq, t) implies t <= now
                + w by {
                let k = choose|k: int|
                    0 <= k < self.entries.len() && (#[trigger] self.entries[k]).from == from
                        && self.entries[k].seq == seq && self.spec_fresh(self.entries[k].at, t);
                if k != n - 1 {
                    assert(self.entries[k] == kept_pre[k]);
                    assert(kept_from(orig, kept_pre[k], from, seq, now, w));
                    assert(false);
                }
            }
            assert forall|f: PeerNum, s: u64, t: u64|
                now <= t && !(f == from && s == seq) && old(self).spec_seen(f, s, t)
                    implies self.spec_seen(f, s, t) by {
                let j = choose|j: int|
                    0 <= j < orig.len() && (#[trigger] orig[j]).from == f && orig[j].seq == s
                        && old(self).spec_fresh(orig[j].at, t);
                assert(orig[j].at + w >= now);
                assert(kept_pre.contains(orig[j]));
                let k = choose|k: int| 0 <= k < kept_pre.len() && kept_pre[k] == orig[j];
                assert(self.entries[k] == orig[j]);
                assert(self.spec_fresh(self.entries[k].at, t));
            }
            assert forall|f: PeerNum, s: u64, t: u64|
                now <= t && !(f == from && s == seq) && self.spec_seen(f, s, t)
                    implies old(self).spec_seen(f, s, t) by {
                let k = choose|k: int|
                    0 <= k < self.entries.len() && (#[trigger] self.entries[k]).from == f
                        && self.entries[k].seq == s && self.spec_fresh(self.entries[k].at, t);
                assert(k != n - 1);
                assert(self.entries[k] == kept_pre[k]);
                assert(kept_from(orig, kept_pre[k], from, seq, now, w));
                let j = choose|j: int| 0 <= j < orig.len() && orig[j] == kept_pre[k];
                assert(old(self).spec_fresh(orig[j].at, t));
            }
        }
    }
}

/// The entry is one of `orig`, still within the window at `now`, and does
/// not carry the fingerprint `(from, seq)`.
pub open spec fn kept_from(
    orig: Seq<CacheEntry>,
    e: CacheEntry,
    from: PeerNum,
    seq: u64,
    now: u64,
    window: u64,
) -> bool {
    orig.contains(e) && e.at + window >= now && !(e.from == from && e.seq == seq)
}

} // verus!
