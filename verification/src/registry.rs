//! The peer registry: every peer this node knows of, with its transport
//! addresses, the time it was last seen, and whether a live connection to it
//! exists right now.
//!
//! Discovery feeds candidates in through [`PeerRegistry::upsert`], connection
//! events flip liveness through `mark_connected` / `mark_disconnected`, and
//! [`PeerRegistry::prune`] forgets peers that are neither connected nor seen
//! within the time-to-live.  A peer appears in at most one record.

use vstd::prelude::*;
use crate::PeerNum;

verus! {

/// Everything known about one peer.
pub struct PeerRecord {
    /// The peer this record is about.
    pub id: PeerNum,
    /// Transport addresses usable to dial the peer, each an opaque byte
    /// string; the most recent candidate list discovery supplied.
    pub addresses: Vec<Vec<u8>>,
    /// Clock reading when the peer was last discovered or connected.
    pub last_seen: u64,
    /// Whether a live connection to the peer exists.
    pub connected: bool,
}

/// The set of peer records, keyed by peer number.
pub struct PeerRegistry {
    /// A record unseen for longer than this, and not connected, is dropped by
    /// `prune`.
    pub ttl: u64,
    /// The records; no two share a peer number.
    pub records: Vec<PeerRecord>,
}

/// The byte string `a` is one of `addrs`, compared by contents.
pub open spec fn addrs_has(addrs: Seq<Vec<u8>>, a: Seq<u8>) -> bool {
    exists|m: int| 0 <= m < addrs.len() && (#[trigger] addrs[m])@ == a
}

/// The record survives a prune at time `now`: it is connected, or was seen
/// within the time-to-live.
pub open spec fn spec_keep(r: PeerRecord, ttl: u64, now: u64) -> bool {
    r.connected || r.last_seen + ttl >= now
}

/// The record `r` stands somewhere in `orig` at or after position `lo`.
pub open spec fn record_from_tail(orig: Seq<PeerRecord>, lo: int, r: PeerRecord) -> bool {
    exists|j: int| lo <= j < orig.len() && (#[trigger] orig[j]) == r
}

impl PeerRegistry {
    /// No peer number appears in two records.
    pub open spec fn wf(&self) -> bool {
        forall|i: int, j: int|
            0 <= i < j < self.records.len()
                ==> (#[trigger] self.records[i]).id != (#[trigger] self.records[j]).id
    }

    /// The peer has a record.
    pub open spec fn spec_has(&self, id: PeerNum) -> bool {
        exists|i: int| 0 <= i < self.records.len() && (#[trigger] self.records[i]).id == id
    }

    /// The peer has a record marked connected.
    pub open spec fn spec_connected(&self, id: PeerNum) -> bool {
        exists|i: int|
            0 <= i < self.records.len() && (#[trigger] self.records[i]).id == id
                && self.records[i].connected
    }

    /// Some record of the peer lists this address.
    pub open spec fn spec_addr_known(&self, id: PeerNum, addr: Seq<u8>) -> bool {
        exists|i: int|
            0 <= i < self.records.len() && (#[trigger] self.records[i]).id == id
                && addrs_has(self.records[i].addresses@, addr)
    }

    /// An empty registry with the given time-to-live.
    pub fn new(ttl: u64) -> (r: PeerRegistry)
        ensures
            r.wf(),
            r.ttl == ttl,
            forall|p: PeerNum| !r.spec_has(p),
            forall|p: PeerNum| !r.spec_connected(p),
    {
        PeerRegistry { ttl, records: Vec::new() }
    }

    /// Index of the peer's record, if any.
    fn find(&self, id: PeerNum) -> (r: Option<usize>)
        ensures
            match r {
                Some(i) => i < self.records.len() && self.records[i as int].id == id,
                None => !self.spec_has(id),
            },
    {
        let mut i: usize = 0;
        while i < self.records.len()
            invariant
                i <= self.records.len(),
                forall|j: int| 0 <= j < i ==> (#[trigger] self.records[j]).id != id,
            decreases self.records.len() - i,
        {
            if self.records[i].id == id {
                return Some(i);
            }
            i += 1;
        }
        None
    }

    /// True when a live connection to `id` exists.
    pub fn is_connected(&self, id: PeerNum) -> (r: bool)
        requires
            self.wf(),
        ensures
            r == self.spec_connected(id),
    {
        match self.find(id) {
            Some(i) => {
                let c = self.records[i].connected;
                proof {
                    if !c && self.spec_connected(id) {
                        let j = choose|j: int|
                            0 <= j < self.records.len() && (#[trigger] self.records[j]).id == id
                                && self.records[j].connected;
                        assert(j != i);
                    }
                }
                c
            },
            None => false,
        }
    }

    /// Record the peer as discovered at `now`: its record now carries exactly
    /// the given candidate addresses and `last_seen == now`; a peer without a
    /// record gets a fresh, not-connected one.  Connectedness of every peer is
    /// untouched.
    pub fn upsert(&mut self, id: PeerNum, addrs: Vec<Vec<u8>>, now: u64)
        requires
            old(self).wf(),
        ensures
            final(self).wf(),
            final(self).ttl == old(self).ttl,
            final(self).spec_has(id),
            forall|p: PeerNum| final(self).spec_has(p) == (old(self).spec_has(p) || p == id),
            forall|p: PeerNum| final(self).spec_connected(p) == old(self).spec_connected(p),
            forall|k: int|
                0 <= k < addrs.len() ==> final(self).spec_addr_known(id, (#[trigger] addrs[k])@),
            forall|a: Seq<u8>| final(self).spec_addr_known(id, a) ==> addrs_has(addrs@, a),
            forall|p: PeerNum, a: Seq<u8>|
                p != id ==> final(self).spec_addr_known(p, a) == old(self).spec_addr_known(p, a),
            forall|i: int|
                0 <= i < final(self).records.len() && (#[trigger] final(self).records[i]).id == id
                    ==> final(self).records[i].last_seen == now,
    {
        match self.find(id) {
            Some(i) => {
                let was = self.records[i].connected;
                let mut slot = PeerRecord { id, addresses: addrs, last_seen: now, connected: was };
                let ghost updg = slot;
                self.records.set_and_swap(i, &mut slot);
                proof {
                    self.lemma_update_effects(*old(self), i as int, updg);
                }
            },
            None => {
                let ghost pre = *self;
                self.records.push(PeerRecord { id, addresses: addrs, last_seen: now, connected: false });
                proof {
                    let n = self.records.len() as int;
                    assert(forall|x: int| 0 <= x < n - 1 ==> #[trigger] self.records[x] == pre.records[x]);
                    assert(self.records[n - 1].id == id && !self.records[n - 1].connected);
                    self.lemma_push_effects(pre);
                }
            },
        }
    }

    /// After `records` became `pre.records.update(i, upd)` with
    /// `upd.id == pre.records[i].id`, relate the lookup views.
    proof fn lemma_update_effects(&self, pre: PeerRegistry, i: int, upd: PeerRecord)
        requires
            pre.wf(),
            0 <= i < pre.records.len(),
            upd.id == pre.records[i].id,
            self.records@ == pre.records@.update(i, upd),
        ensures
            self.wf(),
            forall|p: PeerNum| self.spec_has(p) == pre.spec_has(p),
            forall|p: PeerNum|
                p != upd.id ==> self.spec_connected(p) == pre.spec_connected(p),
            upd.connected == pre.records[i].connected ==> forall|p: PeerNum|
                self.spec_connected(p) == pre.spec_connected(p),
            upd.connected ==> self.spec_connected(upd.id),
            !upd.connected ==> !self.spec_connected(upd.id),
            self.spec_has(upd.id),
            forall|x: int|
                0 <= x < self.records.len() && (#[trigger] self.records[x]).id == upd.id
                    ==> self.records[x] == upd,
            forall|a: Seq<u8>| addrs_has(upd.addresses@, a) ==> self.spec_addr_known(upd.id, a),
            forall|a: Seq<u8>| self.spec_addr_known(upd.id, a) ==> addrs_has(upd.addresses@, a),
            forall|p: PeerNum, a: Seq<u8>|
                p != upd.id ==> self.spec_addr_known(p, a) == pre.spec_addr_known(p, a),
    {
        let id = upd.id;
        assert(forall|x: int|
            0 <= x < self.records.len() && x != i ==> #[trigger] self.records[x] == pre.records[x]);
        assert(self.records[i] == upd);
        assert forall|x: int|
            0 <= x < self.records.len() && (#[trigger] self.records[x]).id == id
                implies self.records[x] == upd by {
            if x != i {
                assert(pre.records[x].id == id && pre.records[i].id == id);
            }
        }
        assert forall|x: int, y: int| 0 <= x < y < self.records.len()
            implies (#[trigger] self.records[x]).id != (#[trigger] self.records[y]).id by {
            assert(pre.records[x].id == self.records[x].id);
            assert(pre.records[y].id == self.records[y].id);
        }
        assert forall|p: PeerNum| self.spec_has(p) implies pre.spec_has(p) by {
            let x = choose|x: int|
                0 <= x < self.records.len() && (#[trigger] self.records[x]).id == p;
            assert(pre.records[x].id == p);
        }
        assert forall|p: PeerNum| pre.spec_has(p) implies self.spec_has(p) by {
            let x = choose|x: int|
                0 <= x < pre.records.len() && (#[trigger] pre.records[x]).id == p;
            assert(self.records[x].id == p);
        }
        assert forall|p: PeerNum| p != id && self.spec_connected(p)
            implies pre.spec_connected(p) by {
            let x = choose|x: int|
                0 <= x < self.records.len() && (#[trigger] self.records[x]).id == p
                    && self.records[x].connected;
            assert(x != i);
            assert(pre.records[x].id == p && pre.records[x].connected);
        }
        assert forall|p: PeerNum| p != id && pre.spec_connected(p)
            implies self.spec_connected(p) by {
            let x = choose|x: int|
                0 <= x < pre.records.len() && (#[trigger] pre.records[x]).id == p
                    && pre.records[x].connected;
            assert(x != i);
            assert(self.records[x].id == p && self.records[x].connected);
        }
        if upd.connected == pre.records[i].connected {
            assert forall|p: PeerNum| self.spec_connected(p) == pre.spec_connected(p) by {
                if self.spec_connected(p) {
                    let x = choose|x: int|
                        0 <= x < self.records.len() && (#[trigger] self.records[x]).id == p
                            && self.records[x].connected;
                    assert(pre.records[x].id == p && pre.records[x].connected);
                }
                if pre.spec_connected(p) {
                    let x = choose|x: int|
                        0 <= x < pre.records.len() && (#[trigger] pre.records[x]).id == p
                            && pre.records[x].connected;
                    assert(self.records[x].id == p && self.records[x].connected);
                }
            }
        }
        if !upd.connected {
            assert forall|x: int|
                0 <= x < self.records.len() && (#[trigger] self.records[x]).id == id
                    implies !self.records[x].connected by {
                if x != i {
                    assert(pre.records[x].id == id && pre.records[i].id == id);
                }
            }
        }
        assert forall|a: Seq<u8>| self.spec_addr_known(id, a)
            implies addrs_has(upd.addresses@, a) by {
            let x = choose|x: int|
                0 <= x < self.records.len() && (#[trigger] self.records[x]).id == id
                    && addrs_has(self.records[x].addresses@, a);
            if x != i {
                assert(pre.records[x].id == id && pre.records[i].id == id);
            }
        }
        assert forall|p: PeerNum, a: Seq<u8>| p != id && self.spec_addr_known(p, a)
            implies pre.spec_addr_known(p, a) by {
            let x = choose|x: int|
                0 <= x < self.records.len() && (#[trigger] self.records[x]).id == p
                    && addrs_has(self.records[x].addresses@, a);
            assert(x != i);
        }
        assert forall|p: PeerNum, a: Seq<u8>| p != id && pre.spec_addr_known(p, a)
            implies self.spec_addr_known(p, a) by {
            let x = choose|x: int|
                0 <= x < pre.records.len() && (#[trigger] pre.records[x]).id == p
                    && addrs_has(pre.records[x].addresses@, a);
            assert(x != i);
            assert(self.records[x].id == p);
        }
    }

    /// After `records` grew by one fresh record, relate the lookup views.
    proof fn lemma_push_effects(&self, pre: PeerRegistry)
        requires
            pre.wf(),
            !pre.spec_has(self.records[self.records.len() - 1].id),
            self.records.len() == pre.records.len() + 1,
            forall|x: int| 0 <= x < pre.records.len() ==> #[trigger] self.records[x] == pre.records[x],
        ensures
            self.wf(),
            self.spec_has(self.records[self.records.len() - 1].id),
            forall|p: PeerNum|
                self.spec_has(p) == (pre.spec_has(p) || p == self.records[self.records.len() - 1].id),
            forall|p: PeerNum|
                p != self.records[self.records.len() - 1].id
                    ==> self.spec_connected(p) == pre.spec_connected(p),
            !self.records[self.records.len() - 1].connected
                ==> !self.spec_connected(self.records[self.records.len() - 1].id),
            self.records[self.records.len() - 1].connected
                ==> self.spec_connected(self.records[self.records.len() - 1].id),
            forall|a: Seq<u8>|
                (#[trigger] addrs_has(self.records[self.records.len() - 1].addresses@, a))
                    ==> self.spec_addr_known(self.records[self.records.len() - 1].id, a),
            forall|a: Seq<u8>|
                (#[trigger] self.spec_addr_known(self.records[self.records.len() - 1].id, a))
                    ==> addrs_has(self.records[self.records.len() - 1].addresses@, a),
            forall|p: PeerNum, a: Seq<u8>|
                p != self.records[self.records.len() - 1].id
                    ==> self.spec_addr_known(p, a) == pre.spec_addr_known(p, a),
            forall|x: int|
                0 <= x < self.records.len() && (#[trigger] self.records[x]).id
                    == self.records[self.records.len() - 1].id ==> self.records[x]
                    == self.records[self.records.len() - 1],
    {
        let n = self.records.len() - 1;
        let id = self.records[n].id;
        assert forall|x: int, y: int| 0 <= x < y < self.records.len()
            implies (#[trigger] self.records[x]).id != (#[trigger] self.records[y]).id by {
            if y < n {
                assert(pre.records[x].id != pre.records[y].id);
            } else {
                if self.records[x].id == id {
                    assert(pre.records[x].id == id);
                }
            }
        }
        assert forall|x: int|
            0 <= x < self.records.len() && (#[trigger] self.records[x]).id == id
                implies self.records[x] == self.records[n] by {
            if x < n {
                assert(pre.records[x].id == id);
            }
        }
        assert forall|p: PeerNum| self.spec_has(p) implies (pre.spec_has(p) || p == id) by {
            let x = choose|x: int|
                0 <= x < self.records.len() && (#[trigger] self.records[x]).id == p;
            if x < n {
                assert(pre.records[x].id == p);
            }
        }
        assert forall|p: PeerNum| pre.spec_has(p) implies self.spec_has(p) by {
            let x = choose|x: int|
                0 <= x < pre.records.len() && (#[trigger] pre.records[x]).id == p;
            assert(self.records[x].id == p);
        }
        assert forall|p: PeerNum| p != id && self.spec_connected(p)
            implies pre.spec_connected(p) by {
            let x = choose|x: int|
                0 <= x < self.records.len() && (#[trigger] self.records[x]).id == p
                    && self.records[x].connected;
            assert(x < n);
            assert(pre.records[x].id == p && pre.records[x].connected);
        }
        assert forall|p: PeerNum| p != id && pre.spec_connected(p)
            implies self.spec_connected(p) by {
            let x = choose|x: int|
                0 <= x < pre.records.len() && (#[trigger] pre.records[x]).id == p
                    && pre.records[x].connected;
            assert(self.records[x].id == p && self.records[x].connected);
        }
        if !self.records[n].connected {
            assert forall|x: int|
                0 <= x < self.records.len() && (#[trigger] self.records[x]).id == id
                    implies !self.records[x].connected by {
                if x < n {
                    assert(pre.records[x].id == id);
                }
            }
        }
        assert forall|a: Seq<u8>| self.spec_addr_known(id, a)
            implies addrs_has(self.records[n].addresses@, a) by {
            let x = choose|x: int|
                0 <= x < self.records.len() && (#[trigger] self.records[x]).id == id
                    && addrs_has(self.records[x].addresses@, a);
            if x < n {
                assert(pre.records[x].id == id);
            }
        }
        assert forall|p: PeerNum, a: Seq<u8>| p != id && self.spec_addr_known(p, a)
            implies pre.spec_addr_known(p, a) by {
            let x = choose|x: int|
                0 <= x < self.records.len() && (#[trigger] self.records[x]).id == p
                    && addrs_has(self.records[x].addresses@, a);
            assert(x < n);
        }
        assert forall|p: PeerNum, a: Seq<u8>| p != id && pre.spec_addr_known(p, a)
            implies self.spec_addr_known(p, a) by {
            let x = choose|x: int|
                0 <= x < pre.records.len() && (#[trigger] pre.records[x]).id == p
                    && addrs_has(pre.records[x].addresses@, a);
            assert(self.records[x].id == p);
        }
    }

    /// Record that a live connection to `id` now exists (creating a record on
    /// a first inbound connection) and refresh `last_seen`.
    pub fn mark_connected(&mut self, id: PeerNum, now: u64)
        requires
            old(self).wf(),
        ensures
            final(self).wf(),
            final(self).ttl == old(self).ttl,
            final(self).spec_connected(id),
            forall|p: PeerNum| final(self).spec_has(p) == (old(self).spec_has(p) || p == id),
            forall|p: PeerNum|
                p != id ==> final(self).spec_connected(p) == old(self).spec_connected(p),
            forall|i: int|
                0 <= i < final(self).records.len() && (#[trigger] final(self).records[i]).id == id
                    ==> final(self).records[i].last_seen == now,
    {
        match self.find(id) {
            Some(i) => {
                let mut taken = PeerRecord { id, addresses: Vec::new(), last_seen: 0, connected: false };
                self.records.set_and_swap(i, &mut taken);
                let upd = PeerRecord { id, addresses: taken.addresses, last_seen: now, connected: true };
                let ghost updg = upd;
                self.records.set(i, upd);
                proof {
                    assert(self.records@ =~= old(self).records@.update(i as int, updg));
                    self.lemma_update_effects(*old(self), i as int, updg);
                }
            },
            None => {
                let ghost pre = *self;
                self.records.push(PeerRecord { id, addresses: Vec::new(), last_seen: now, connected: true });
                proof {
                    let n = self.records.len() as int;
                    assert(forall|x: int| 0 <= x < n - 1 ==> #[trigger] self.records[x] == pre.records[x]);
                    self.lemma_push_effects(pre);
                }
            },
        }
    }

    /// Record that no live connection to `id` exists any more.  The record
    /// itself stays until `prune` drops it.
    pub fn mark_disconnected(&mut self, id: PeerNum)
        requires
            old(self).wf(),
        ensures
            final(self).wf(),
            final(self).ttl == old(self).ttl,
            !final(self).spec_connected(id),
            forall|p: PeerNum| final(self).spec_has(p) == old(self).spec_has(p),
            forall|p: PeerNum|
                p != id ==> final(self).spec_connected(p) == old(self).spec_connected(p),
    {
        match self.find(id) {
            Some(i) => {
                let mut taken = PeerRecord { id, addresses: Vec::new(), last_seen: 0, connected: false };
                self.records.set_and_swap(i, &mut taken);
                let upd = PeerRecord {
                    id,
                    addresses: taken.addresses,
                    last_seen: taken.last_seen,
                    connected: false,
                };
                let ghost updg = upd;
                self.records.set(i, upd);
                proof {
                    assert(self.records@ =~= old(self).records@.update(i as int, updg));
                    self.lemma_update_effects(*old(self), i as int, updg);
                }
            },
            None => {
                proof {
                    if self.spec_connected(id) {
                        let x = choose|x: int|
                            0 <= x < self.records.len() && (#[trigger] self.records[x]).id == id
                                && self.records[x].connected;
                    }
                }
            },
        }
    }

    /// Forget every peer that is not connected and was last seen longer than
    /// `ttl` ago.  A record survives if and only if it is connected or still
    /// within the time-to-live; which peers are connected does not change,
    /// and no record appears from nowhere.
    pub fn prune(&mut self, now: u64)
        requires
            old(self).wf(),
        ensures
            final(self).wf(),
            final(self).ttl == old(self).ttl,
            forall|p: PeerNum| final(self).spec_connected(p) == old(self).spec_connected(p),
            forall|p: PeerNum| final(self).spec_has(p) ==> old(self).spec_has(p),
            forall|i: int|
                0 <= i < old(self).records.len() ==> final(self).spec_has(
                    (#[trigger] old(self).records[i]).id,
                ) == spec_keep(old(self).records[i], old(self).ttl, now),
    {
        let ghost orig = self.records@;
        let mut rest: Vec<PeerRecord> = Vec::new();
        core::mem::swap(&mut rest, &mut self.records);
        let mut kept: Vec<PeerRecord> = Vec::new();
        proof {
            assert(rest@ =~= orig.subrange(0, rest.len() as int));
        }
        while rest.len() > 0
            invariant
                rest.len() <= orig.len(),
                rest@ == orig.subrange(0, rest.len() as int),
                forall|x: int, y: int|
                    0 <= x < y < orig.len() ==> (#[trigger] orig[x]).id != (#[trigger] orig[y]).id,
                forall|k: int|
                    0 <= k < kept.len() ==> record_from_tail(orig, rest.len() as int, #[trigger] kept[k])
                        && spec_keep(kept[k], self.ttl, now),
                forall|j: int|
                    rest.len() <= j < orig.len() && spec_keep(#[trigger] orig[j], self.ttl, now)
                        ==> kept@.contains(orig[j]),
                forall|k1: int, k2: int|
                    0 <= k1 < k2 < kept.len()
                        ==> (#[trigger] kept[k1]).id != (#[trigger] kept[k2]).id,
                self.ttl == old(self).ttl,
            decreases rest.len(),
        {
            let ghost n = rest@.len() as int;
            let rec = rest.pop().unwrap();
            proof {
                assert(rec == orig.subrange(0, n)[n - 1]);
                assert(rec == orig[n - 1]);
                assert(rest@ =~= orig.subrange(0, n - 1));
            }
            let keep = rec.connected || Self::within_ttl(rec.last_seen, self.ttl, now);
            proof {
                assert(keep == spec_keep(orig[n - 1], self.ttl, now));
            }
            if keep {
                proof {
                    assert forall|k: int| 0 <= k < kept.len()
                        implies (#[trigger] kept[k]).id != rec.id by {
                        let j = choose|j: int| n <= j < orig.len() && (#[trigger] orig[j]) == kept[k];
                        assert(orig[n - 1].id != orig[j].id);
                    }
                }
                let ghost kept0 = kept@;
                kept.push(rec);
                proof {
                    assert(forall|k: int| 0 <= k < kept0.len() ==> #[trigger] kept[k] == kept0[k]);
                    assert(kept[kept.len() - 1] == orig[n - 1]);
                    assert forall|j: int|
                        n - 1 <= j < orig.len() && spec_keep(#[trigger] orig[j], self.ttl, now)
                            implies kept@.contains(orig[j]) by {
                        if j >= n {
                            let k = choose|k: int| 0 <= k < kept0.len() && kept0[k] == orig[j];
                            assert(kept[k] == orig[j]);
                        } else {
                            assert(kept[kept.len() - 1] == orig[j]);
                        }
                    }
                    assert forall|k: int| 0 <= k < kept.len()
                        implies record_from_tail(orig, n - 1, #[trigger] kept[k]) by {
                        if k < kept0.len() {
                            let j = choose|j: int| n <= j < orig.len() && (#[trigger] orig[j]) == kept0[k];
                            assert(orig[j] == kept[k]);
                        } else {
                            assert(orig[n - 1] == kept[k]);
                        }
                    }
                }
            } else {
                proof {
                    assert forall|k: int| 0 <= k < kept.len()
                        implies record_from_tail(orig, n - 1, #[trigger] kept[k]) by {
                        let j = choose|j: int| n <= j < orig.len() && (#[trigger] orig[j]) == kept[k];
                    }
                }
            }
        }
        self.records = kept;
        proof {
            assert forall|i: int| 0 <= i < orig.len() implies self.spec_has(
                (#[trigger] orig[i]).id,
            ) == spec_keep(orig[i], old(self).ttl, now) by {
                if spec_keep(orig[i], old(self).ttl, now) {
                    assert(kept@.contains(orig[i]));
                    let k = choose|k: int| 0 <= k < kept@.len() && kept@[k] == orig[i];
                    assert(self.records[k].id == orig[i].id);
                }
                if self.spec_has(orig[i].id) && !spec_keep(orig[i], old(self).ttl, now) {
                    let l = choose|l: int|
                        0 <= l < self.records.len() && (#[trigger] self.records[l]).id
                            == orig[i].id;
                    let j = choose|j: int|
                        0 <= j < orig.len() && (#[trigger] orig[j]) == self.records[l];
                    assert(spec_keep(orig[j], old(self).ttl, now));
                    assert(j != i);
                    assert(orig[j].id != orig[i].id);
                }
            }
            assert forall|p: PeerNum| self.spec_connected(p) implies old(self).spec_connected(p) by {
                let k = choose|k: int|
                    0 <= k < self.records.len() && (#[trigger] self.records[k]).id == p
                        && self.records[k].connected;
                let j = choose|j: int| 0 <= j < orig.len() && (#[trigger] orig[j]) == self.records[k];
                assert(old(self).records[j].id == p && old(self).records[j].connected);
            }
            assert forall|p: PeerNum| old(self).spec_connected(p) implies self.spec_connected(p) by {
                let j = choose|j: int|
                    0 <= j < orig.len() && (#[trigger] orig[j]).id == p && orig[j].connected;
                assert(kept@.contains(orig[j]));
                let k = choose|k: int| 0 <= k < kept@.len() && kept@[k] == orig[j];
                assert(self.records[k].id == p && self.records[k].connected);
            }
            assert forall|p: PeerNum| self.spec_has(p) implies old(self).spec_has(p) by {
                let k = choose|k: int|
                    0 <= k < self.records.len() && (#[trigger] self.records[k]).id == p;
                let j = choose|j: int| 0 <= j < orig.len() && (#[trigger] orig[j]) == self.records[k];
                assert(old(self).records[j].id == p);
            }
        }
    }

    /// Executable freshness test for `prune`, free of overflow.
    fn within_ttl(last_seen: u64, ttl: u64, now: u64) -> (r: bool)
        ensures
            r == (last_seen + ttl >= now),
    {
        if last_seen >= now {
            true
        } else {
            now - last_seen <= ttl
        }
    }

    /// Some record among the first `i` is connected and carries `p`.
    pub open spec fn connected_in_prefix(&self, i: int, p: PeerNum) -> bool {
        exists|j: int|
            0 <= j < i && (#[trigger] self.records[j]).id == p && self.records[j].connected
    }

    /// The peers currently connected, each once.
    pub fn connected_ids(&self) -> (r: Vec<PeerNum>)
        requires
            self.wf(),
        ensures
            r@.no_duplicates(),
            forall|p: PeerNum| r@.contains(p) == self.spec_connected(p),
    {
        let mut out: Vec<PeerNum> = Vec::new();
        let mut i: usize = 0;
        while i < self.records.len()
            invariant
                self.wf(),
                i <= self.records.len(),
                out@.no_duplicates(),
                forall|k: int|
                    0 <= k < out.len() ==> self.connected_in_prefix(i as int, #[trigger] out[k]),
                forall|j: int|
                    0 <= j < i && (#[trigger] self.records[j]).connected
                        ==> out@.contains(self.records[j].id),
            decreases self.records.len() - i,
        {
            if self.records[i].connected {
                proof {
                    if out@.contains(self.records[i as int].id) {
                        let k = choose|k: int|
                            0 <= k < out@.len() && out@[k] == self.records[i as int].id;
                        assert(self.connected_in_prefix(i as int, out@[k]));
                        let j = choose|j: int|
                            0 <= j < i && (#[trigger] self.records[j]).id == out@[k]
                                && self.records[j].connected;
                        assert(false);
                    }
                }
                let ghost out0 = out@;
                out.push(self.records[i].id);
                proof {
                    assert(forall|k: int| 0 <= k < out0.len() ==> #[trigger] out[k] == out0[k]);
                    assert(out[out.len() - 1] == self.records[i as int].id);
                    assert forall|j: int|
                        0 <= j <= i && (#[trigger] self.records[j]).connected
                            implies out@.contains(self.records[j].id) by {
                        if j < i {
                            let k = choose|k: int| 0 <= k < out0.len() && out0[k] == self.records[j].id;
                            assert(out[k] == self.records[j].id);
                        } else {
                            assert(out[out.len() - 1] == self.records[j].id);
                        }
                    }
                    assert forall|k: int| 0 <= k < out.len()
                        implies self.connected_in_prefix(i + 1, #[trigger] out[k]) by {
                        if k < out0.len() {
                            assert(self.connected_in_prefix(i as int, out0[k]));
                            let j = choose|j: int|
                                0 <= j < i && (#[trigger] self.records[j]).id == out0[k]
                                    && self.records[j].connected;
                        }
                    }
                }
            }
            i += 1;
        }
        proof {
            assert forall|p: PeerNum| out@.contains(p) implies self.spec_connected(p) by {
                let k = choose|k: int| 0 <= k < out@.len() && out@[k] == p;
                assert(self.connected_in_prefix(self.records.len() as int, out@[k]));
                let j = choose|j: int|
                    0 <= j < self.records.len() && (#[trigger] self.records[j]).id == p
                        && self.records[j].connected;
            }
            assert forall|p: PeerNum| self.spec_connected(p) implies out@.contains(p) by {
                let j = choose|j: int|
                    0 <= j < self.records.len() && (#[trigger] self.records[j]).id == p
                        && self.records[j].connected;
            }
        }
        out
    }
}

} // verus!
