//! Per-topic state: who is interested and who we actively gossip with.
//!
//! Every remote peer that announced interest in the topic is a subscriber; a
//! bounded subset of the connected subscribers is the mesh, the peers a
//! publish is flooded to.  [`maintain`] is the heartbeat step: it drops
//! disconnected mesh members, promotes connected subscribers while the mesh
//! is under the low-water mark, and demotes members down to the target when
//! it is over the high-water mark.

use vstd::prelude::*;
use crate::PeerNum;
use crate::registry::PeerRegistry;

verus! {

broadcast use vstd::seq_lib::seq_to_set_is_finite;

/// Everything the node keeps about one topic.
pub struct TopicState {
    /// The topic's name, an opaque byte string.
    pub name: Vec<u8>,
    /// Remote peers that announced interest, each once.
    pub subscribers: Vec<PeerNum>,
    /// The gossip neighbors: a subset of the subscribers, each once.
    pub mesh: Vec<PeerNum>,
}

/// `p` stands among the first `i` entries of `src`.
pub open spec fn in_prefix(src: Seq<PeerNum>, i: int, p: PeerNum) -> bool {
    exists|j: int| 0 <= j < i && (#[trigger] src[j]) == p
}

/// `p` is a connected subscriber: what a mesh member must be.
pub open spec fn good_member(subs: Seq<PeerNum>, reg: PeerRegistry, p: PeerNum) -> bool {
    subs.contains(p) && reg.spec_connected(p)
}

impl TopicState {
    /// Structural soundness: no duplicate peers and the mesh drawn from the
    /// subscribers.
    pub open spec fn wf(&self) -> bool {
        &&& self.subscribers@.no_duplicates()
        &&& self.mesh@.no_duplicates()
        &&& forall|p: PeerNum| self.mesh@.contains(p) ==> self.subscribers@.contains(p)
    }

    /// The mesh references connected peers only.
    pub open spec fn mesh_connected(&self, reg: PeerRegistry) -> bool {
        forall|p: PeerNum| self.mesh@.contains(p) ==> reg.spec_connected(p)
    }

    /// The subscribers a heartbeat may promote: interested and connected.
    pub open spec fn spec_eligible(&self, reg: PeerRegistry) -> Set<PeerNum> {
        self.subscribers@.to_set().filter(|p: PeerNum| reg.spec_connected(p))
    }

    /// A topic nobody is subscribed to yet, remotely or locally.
    pub fn new(name: Vec<u8>) -> (r: TopicState)
        ensures
            r.wf(),
            r.name == name,
            r.subscribers.len() == 0,
            r.mesh.len() == 0,
    {
        TopicState { name, subscribers: Vec::new(), mesh: Vec::new() }
    }
}

/// Membership test on a peer list.
pub fn contains_peer(v: &Vec<PeerNum>, x: PeerNum) -> (r: bool)
    ensures
        r == v@.contains(x),
{
    let mut i: usize = 0;
    while i < v.len()
        invariant
            i <= v.len(),
            forall|j: int| 0 <= j < i ==> (#[trigger] v[j]) != x,
        decreases v.len() - i,
    {
        if v[i] == x {
            return true;
        }
        i += 1;
    }
    false
}

/// Adds `x` unless it is already present.
pub fn push_unique(v: &mut Vec<PeerNum>, x: PeerNum)
    requires
        old(v)@.no_duplicates(),
    ensures
        final(v)@.no_duplicates(),
        forall|p: PeerNum| final(v)@.contains(p) == (old(v)@.contains(p) || p == x),
{
    if !contains_peer(v, x) {
        let ghost v0 = v@;
        v.push(x);
        proof {
            assert(forall|k: int| 0 <= k < v0.len() ==> #[trigger] v[k] == v0[k]);
            assert(v[v.len() - 1] == x);
            assert forall|p: PeerNum| v@.contains(p) implies (v0.contains(p) || p == x) by {
                let k = choose|k: int| 0 <= k < v@.len() && v@[k] == p;
                if k < v0.len() {
                    assert(v0[k] == p);
                }
            }
            assert forall|p: PeerNum| v0.contains(p) implies v@.contains(p) by {
                let k = choose|k: int| 0 <= k < v0.len() && v0[k] == p;
                assert(v[k] == p);
            }
        }
    }
}

/// Removes every occurrence of `x`, keeping the others in order.
pub fn remove_peer(v: &mut Vec<PeerNum>, x: PeerNum)
    requires
        old(v)@.no_duplicates(),
    ensures
        final(v)@.no_duplicates(),
        forall|p: PeerNum| final(v)@.contains(p) == (old(v)@.contains(p) && p != x),
{
    let ghost src = v@;
    let mut kept: Vec<PeerNum> = Vec::new();
    let mut i: usize = 0;
    while i < v.len()
        invariant
            v@ == src,
            i <= src.len(),
            src.no_duplicates(),
            kept@.no_duplicates(),
            forall|k: int|
                0 <= k < kept.len() ==> in_prefix(src, i as int, #[trigger] kept[k])
                    && kept[k] != x,
            forall|j: int|
                0 <= j < i && (#[trigger] src[j]) != x ==> kept@.contains(src[j]),
        decreases v.len() - i,
    {
        let p = v[i];
        if p != x {
            proof {
                if kept@.contains(p) {
                    let k = choose|k: int| 0 <= k < kept@.len() && kept@[k] == p;
                    assert(in_prefix(src, i as int, kept@[k]));
                    let j = choose|j: int| 0 <= j < i && (#[trigger] src[j]) == p;
                    assert(false);
                }
            }
            let ghost kept0 = kept@;
            kept.push(p);
            proof {
                assert(forall|k: int| 0 <= k < kept0.len() ==> #[trigger] kept[k] == kept0[k]);
                assert(kept[kept.len() - 1] == src[i as int]);
                assert forall|k: int| 0 <= k < kept.len()
                    implies in_prefix(src, i + 1, #[trigger] kept[k]) && kept[k] != x by {
                    if k < kept0.len() {
                        assert(in_prefix(src, i as int, kept0[k]));
                        let j = choose|j: int| 0 <= j < i && (#[trigger] src[j]) == kept0[k];
                    }
                }
                assert forall|j: int| 0 <= j <= i && (#[trigger] src[j]) != x
                    implies kept@.contains(src[j]) by {
                    if j < i {
                        let k = choose|k: int| 0 <= k < kept0.len() && kept0[k] == src[j];
                        assert(kept[k] == src[j]);
                    } else {
                        assert(kept[kept.len() - 1] == src[j]);
                    }
                }
            }
        } else {
            proof {
                assert forall|k: int| 0 <= k < kept.len()
                    implies in_prefix(src, i + 1, #[trigger] kept[k]) && kept[k] != x by {
                    assert(in_prefix(src, i as int, kept[k]));
                    let j = choose|j: int| 0 <= j < i && (#[trigger] src[j]) == kept[k];
                }
            }
        }
        i += 1;
    }
    *v = kept;
    proof {
        assert forall|p: PeerNum| v@.contains(p) implies (src.contains(p) && p != x) by {
            let k = choose|k: int| 0 <= k < v@.len() && v@[k] == p;
            assert(in_prefix(src, src.len() as int, v@[k]));
            let j = choose|j: int| 0 <= j < src.len() && (#[trigger] src[j]) == p;
        }
        assert forall|p: PeerNum| src.contains(p) && p != x implies v@.contains(p) by {
            let j = choose|j: int| 0 <= j < src.len() && src[j] == p;
        }
    }
}

/// One heartbeat of mesh upkeep for one topic, whether or not the node
/// itself is subscribed — dissemination serves every known subscriber.
///
/// Disconnected members leave the mesh; while the mesh is under `d_low`,
/// connected subscribers are promoted into it; a mesh over `d_high` is
/// demoted down to the target `d`.  Afterwards the mesh holds only connected
/// subscribers, never more than `d_high` of them, and fewer than `d_low` only
/// when every eligible subscriber is already in it.
pub fn maintain(
    t: TopicState,
    reg: &PeerRegistry,
    d_low: usize,
    d: usize,
    d_high: usize,
) -> (r: TopicState)
    requires
        t.wf(),
        reg.wf(),
        d_low <= d,
        d <= d_high,
    ensures
        r.wf(),
        r.name == t.name,
        r.subscribers == t.subscribers,
        r.mesh_connected(*reg),
        forall|p: PeerNum| r.mesh@.contains(p) ==> t.subscribers@.contains(p),
        r.mesh.len() <= d_high,
        r.mesh.len() < d_low
            ==> forall|p: PeerNum|
                t.subscribers@.contains(p) && reg.spec_connected(p) ==> r.mesh@.contains(p),
        t.spec_eligible(*reg).len() >= d_low ==> r.mesh.len() >= d_low,
{
    let TopicState { name, subscribers, mesh } = t;
    let ghost mesh0 = mesh@;
    let mut kept: Vec<PeerNum> = Vec::new();
    let mut i: usize = 0;
    while i < mesh.len()
        invariant
            reg.wf(),
            i <= mesh0.len(),
            mesh@ == mesh0,
            mesh0.no_duplicates(),
            kept@.no_duplicates(),
            forall|k: int|
                0 <= k < kept.len() ==> in_prefix(mesh0, i as int, #[trigger] kept[k])
                    && reg.spec_connected(kept[k]),
        decreases mesh.len() - i,
    {
        let p = mesh[i];
        if reg.is_connected(p) {
            proof {
                if kept@.contains(p) {
                    let k = choose|k: int| 0 <= k < kept@.len() && kept@[k] == p;
                    assert(in_prefix(mesh0, i as int, kept@[k]));
                    let j = choose|j: int| 0 <= j < i && (#[trigger] mesh0[j]) == p;
                    assert(false);
                }
            }
            let ghost kept0 = kept@;
            kept.push(p);
            proof {
                assert(forall|k: int| 0 <= k < kept0.len() ==> #[trigger] kept[k] == kept0[k]);
                assert(kept[kept.len() - 1] == mesh0[i as int]);
                assert forall|k: int| 0 <= k < kept.len()
                    implies in_prefix(mesh0, i + 1, #[trigger] kept[k])
                        && reg.spec_connected(kept[k]) by {
                    if k < kept0.len() {
                        assert(in_prefix(mesh0, i as int, kept0[k]));
                        let j = choose|j: int| 0 <= j < i && (#[trigger] mesh0[j]) == kept0[k];
                    }
                }
            }
        } else {
            proof {
                assert forall|k: int| 0 <= k < kept.len()
                    implies in_prefix(mesh0, i + 1, #[trigger] kept[k])
                        && reg.spec_connected(kept[k]) by {
                    assert(in_prefix(mesh0, i as int, kept[k]));
                    let j = choose|j: int| 0 <= j < i && (#[trigger] mesh0[j]) == kept[k];
                }
            }
        }
        i += 1;
    }
    proof {
        assert forall|p: PeerNum| kept@.contains(p)
            implies subscribers@.contains(p) && reg.spec_connected(p) by {
            let k = choose|k: int| 0 <= k < kept@.len() && kept@[k] == p;
            assert(in_prefix(mesh0, mesh0.len() as int, kept@[k]));
            let j = choose|j: int| 0 <= j < mesh0.len() && (#[trigger] mesh0[j]) == p;
            assert(mesh0.contains(p));
        }
    }
    let mut new_mesh = kept;
    if new_mesh.len() > d_high {
        let ghost full = new_mesh@;
        new_mesh.truncate(d);
        proof {
            assert(new_mesh@ == full.subrange(0, d as int));
            assert forall|k1: int, k2: int| 0 <= k1 < k2 < new_mesh@.len()
                implies new_mesh@[k1] != new_mesh@[k2] by {
                assert(full[k1] == new_mesh@[k1] && full[k2] == new_mesh@[k2]);
            }
            assert forall|p: PeerNum| new_mesh@.contains(p)
                implies subscribers@.contains(p) && reg.spec_connected(p) by {
                let k = choose|k: int| 0 <= k < new_mesh@.len() && new_mesh@[k] == p;
                assert(full[k] == p);
                assert(full.contains(p));
            }
        }
        return TopicState { name, subscribers, mesh: new_mesh };
    }
    proof {
        assert forall|k: int| 0 <= k < new_mesh.len()
            implies good_member(subscribers@, *reg, #[trigger] new_mesh[k]) by {
            assert(new_mesh@.contains(new_mesh[k]));
        }
    }
    let mut i2: usize = 0;
    while i2 < subscribers.len() && new_mesh.len() < d_low
        invariant
            reg.wf(),
            i2 <= subscribers.len(),
            subscribers@.no_duplicates(),
            new_mesh@.no_duplicates(),
            new_mesh.len() <= d_high,
            forall|k: int|
                0 <= k < new_mesh.len() ==> good_member(subscribers@, *reg, #[trigger] new_mesh[k]),
            forall|j: int|
                0 <= j < i2 && reg.spec_connected(#[trigger] subscribers[j])
                    ==> new_mesh@.contains(subscribers[j]),
            d_low <= d <= d_high,
        decreases subscribers.len() - i2,
    {
        let p = subscribers[i2];
        if reg.is_connected(p) {
            if !contains_peer(&new_mesh, p) {
                let ghost m0 = new_mesh@;
                new_mesh.push(p);
                proof {
                    assert(forall|k: int| 0 <= k < m0.len() ==> #[trigger] new_mesh[k] == m0[k]);
                    assert(new_mesh[new_mesh.len() - 1] == subscribers[i2 as int]);
                    assert(subscribers@[i2 as int] == p);
                    assert(subscribers@.contains(p));
                    assert(good_member(subscribers@, *reg, p));
                    assert forall|q: PeerNum| m0.contains(q) implies new_mesh@.contains(q) by {
                        let k = choose|k: int| 0 <= k < m0.len() && m0[k] == q;
                        assert(new_mesh[k] == q);
                    }
                    assert(new_mesh@.no_duplicates());
                }
            }
        }
        i2 += 1;
    }
    proof {
        assert forall|p: PeerNum| new_mesh@.contains(p)
            implies subscribers@.contains(p) && reg.spec_connected(p) by {
            let k = choose|k: int| 0 <= k < new_mesh@.len() && new_mesh@[k] == p;
            assert(good_member(subscribers@, *reg, new_mesh[k]));
        }
        if new_mesh.len() < d_low {
            assert(i2 == subscribers.len());
            assert forall|p: PeerNum|
                subscribers@.contains(p) && reg.spec_connected(p)
                    implies new_mesh@.contains(p) by {
                let j = choose|j: int| 0 <= j < subscribers@.len() && subscribers@[j] == p;
            }
        }
        if t.spec_eligible(*reg).len() >= d_low && new_mesh.len() < d_low {
            let elig = subscribers@.to_set().filter(|p: PeerNum| reg.spec_connected(p));
            assert(elig == t.spec_eligible(*reg));
            subscribers@.to_set().lemma_len_filter(|p: PeerNum| reg.spec_connected(p));
            assert forall|p: PeerNum| elig.contains(p)
                implies new_mesh@.to_set().contains(p) by {
                assert(subscribers@.to_set().contains(p));
                assert(subscribers@.contains(p));
                assert(new_mesh@.contains(p));
            }
            vstd::set_lib::lemma_len_subset(elig, new_mesh@.to_set());
            new_mesh@.unique_seq_to_set();
            assert(false);
        }
    }
    TopicState { name, subscribers, mesh: new_mesh }
}

} // verus!
