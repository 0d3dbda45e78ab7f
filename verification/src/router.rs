//! The router: one node's complete protocol state and every transition of it.
//!
//! The host owns the event loop and the sockets; this type owns the logic.
//! Local calls (subscribe, unsubscribe, publish), wire bytes from a peer,
//! connection events and the heartbeat tick each become one method call that
//! updates the state and returns the [`Action`]s the host must carry out —
//! encode the envelope and send it to the named peer.  Local deliveries go
//! into the router's own inboxes, which the host drains through
//! [`Router::read_inbox`].

use vstd::prelude::*;
use crate::{Message, PeerNum, bytes_eq, copy_bytes};
use crate::cache::MessageCache;
use crate::codec::{Envelope, decode, is_interest, is_publish, spec_encode};
use crate::mesh::{TopicState, maintain, push_unique, remove_peer};
use crate::registry::{PeerRegistry, spec_keep};

verus! {

/// Protocol parameters: mesh bounds and the two forgetting windows.
#[derive(Clone, Copy)]
pub struct Config {
    /// Low-water mark: the heartbeat promotes subscribers into the mesh while
    /// it is smaller than this.
    pub d_low: usize,
    /// Target mesh size after a demotion.
    pub d: usize,
    /// High-water mark: a mesh larger than this is demoted down to `d`.
    pub d_high: usize,
    /// How long a message fingerprint suppresses duplicates.
    pub cache_window: u64,
    /// How long an unconnected peer record survives without being seen.
    pub peer_ttl: u64,
}

impl Config {
    /// The bounds are ordered.
    pub open spec fn wf(&self) -> bool {
        self.d_low <= self.d && self.d <= self.d_high
    }
}

/// One thing the host must do on the router's behalf: encode the envelope and
/// send the bytes to the peer.
#[derive(Clone, Debug)]
pub enum Action {
    /// Send `envelope` to the peer `to`.
    Send { to: PeerNum, envelope: Envelope },
}

/// The peer an action is addressed to.
pub open spec fn action_to(a: Action) -> PeerNum {
    match a {
        Action::Send { to, .. } => to,
    }
}

/// The envelope an action carries.
pub open spec fn action_env(a: Action) -> Envelope {
    match a {
        Action::Send { envelope, .. } => envelope,
    }
}

/// Some action in the list is addressed to `p`.
pub open spec fn sent_to(actions: Seq<Action>, p: PeerNum) -> bool {
    exists|i: int| 0 <= i < actions.len() && action_to(#[trigger] actions[i]) == p
}

/// Every action announces `subscribe`/withdraw of `topic` to a connected
/// peer, and every connected peer is told once.
pub open spec fn announces(actions: Seq<Action>, reg: PeerRegistry, topic: Seq<u8>, subscribe: bool) -> bool {
    &&& forall|i: int|
        0 <= i < actions.len() ==> reg.spec_connected(action_to(#[trigger] actions[i]))
            && is_interest(action_env(actions[i]), topic, subscribe)
    &&& forall|p: PeerNum| reg.spec_connected(p) ==> sent_to(actions, p)
    &&& forall|i: int, j: int|
        0 <= i < j < actions.len() ==> action_to(#[trigger] actions[i]) != action_to(
            #[trigger] actions[j],
        )
}

/// The peer `p` is spared by the exclusion, if any.
pub open spec fn excluded(except: Option<PeerNum>, p: PeerNum) -> bool {
    match except {
        Some(s) => p == s,
        None => false,
    }
}

/// Every action sends this very publish to a mesh member other than the
/// excluded peer, and every such member is sent it.
pub open spec fn floods(
    actions: Seq<Action>,
    mesh: Seq<PeerNum>,
    except: Option<PeerNum>,
    topic: Seq<u8>,
    from: PeerNum,
    sq: u64,
    data: Seq<u8>,
) -> bool {
    &&& forall|i: int|
        0 <= i < actions.len() ==> mesh.contains(action_to(#[trigger] actions[i]))
            && !excluded(except, action_to(actions[i]))
            && is_publish(action_env(actions[i]), topic, from, sq, data)
    &&& forall|p: PeerNum| mesh.contains(p) && !excluded(except, p) ==> sent_to(actions, p)
}

/// One local subscription: the handle the caller holds, the topic it is for,
/// and the messages delivered but not yet read, oldest first.
pub struct Inbox {
    /// Handle the subscriber holds.
    pub id: u64,
    /// Topic the subscription is for.
    pub topic: Vec<u8>,
    /// Delivered, unread messages in processing order.
    pub queue: Vec<Message>,
}

/// Outcome of a non-blocking inbox read.
#[derive(Clone, Debug)]
pub enum InboxRead {
    /// The oldest unread message.
    Msg(Message),
    /// Nothing unread yet; the subscription is live.
    Empty,
    /// No such subscription any more: end of stream.
    Closed,
}

/// The queue grew by exactly one message, from `publisher` carrying `data`.
pub open spec fn queue_extended(qa: Seq<Message>, qb: Seq<Message>, publisher: PeerNum, data: Seq<u8>) -> bool {
    &&& qb.len() == qa.len() + 1
    &&& forall|i: int| 0 <= i < qa.len() ==> #[trigger] qb[i] == qa[i]
    &&& qb[qa.len() as int].is_from(publisher, data)
}

/// Every inbox of `topic` received exactly the one new message; every other
/// inbox is untouched.
pub open spec fn delivered(
    a: Seq<Inbox>,
    b: Seq<Inbox>,
    topic: Seq<u8>,
    publisher: PeerNum,
    data: Seq<u8>,
) -> bool {
    &&& b.len() == a.len()
    &&& forall|k: int| 0 <= k < a.len() ==> {
        &&& (#[trigger] b[k]).id == (#[trigger] a[k]).id
        &&& b[k].topic@ == a[k].topic@
        &&& (a[k].topic@ == topic ==> queue_extended(a[k].queue@, b[k].queue@, publisher, data))
        &&& (a[k].topic@ != topic ==> b[k].queue == a[k].queue)
    }
}

/// One node's complete protocol state.
pub struct Router {
    /// This node's own peer number.
    pub local_peer: PeerNum,
    /// Mesh bounds and windows.
    pub config: Config,
    /// Sequence number the next local publish will carry.
    pub next_seq: u64,
    /// Handle the next subscription will get.
    pub next_inbox: u64,
    /// Every peer known, with liveness.
    pub registry: PeerRegistry,
    /// Per-topic subscriber and mesh state.
    pub topics: Vec<TopicState>,
    /// The local subscriptions.
    pub inboxes: Vec<Inbox>,
    /// Recently seen message fingerprints.
    pub cache: MessageCache,
}

impl Router {
    /// Structural soundness of the whole state: ordered mesh bounds, sound
    /// registry and topics, each topic name once, every mesh made of
    /// connected peers, and inbox handles unique and below the counter.
    pub open spec fn wf(&self) -> bool {
        &&& self.config.wf()
        &&& self.registry.wf()
        &&& self.cache.window == self.config.cache_window
        &&& forall|ti: int| 0 <= ti < self.topics.len() ==> (#[trigger] self.topics[ti]).wf()
        &&& forall|ti: int|
            0 <= ti < self.topics.len() ==> (#[trigger] self.topics[ti]).mesh_connected(
                self.registry,
            )
        &&& forall|ti: int, tj: int|
            0 <= ti < tj < self.topics.len() ==> (#[trigger] self.topics[ti]).name@ != (
            #[trigger] self.topics[tj]).name@
        &&& forall|k: int|
            0 <= k < self.inboxes.len() ==> (#[trigger] self.inboxes[k]).id < self.next_inbox
        &&& forall|k: int, l: int|
            0 <= k < l < self.inboxes.len() ==> (#[trigger] self.inboxes[k]).id != (
            #[trigger] self.inboxes[l]).id
    }

    /// A topic state for this name exists.
    pub open spec fn spec_topic_known(&self, topic: Seq<u8>) -> bool {
        exists|ti: int| 0 <= ti < self.topics.len() && (#[trigger] self.topics[ti]).name@ == topic
    }

    /// Peer `p` announced interest in the topic.
    pub open spec fn spec_topic_subscriber(&self, topic: Seq<u8>, p: PeerNum) -> bool {
        exists|ti: int|
            0 <= ti < self.topics.len() && (#[trigger] self.topics[ti]).name@ == topic
                && self.topics[ti].subscribers@.contains(p)
    }

    /// Peer `p` is a gossip neighbor for the topic.
    pub open spec fn spec_mesh_member(&self, topic: Seq<u8>, p: PeerNum) -> bool {
        exists|ti: int|
            0 <= ti < self.topics.len() && (#[trigger] self.topics[ti]).name@ == topic
                && self.topics[ti].mesh@.contains(p)
    }

    /// A subscription with this handle exists.
    pub open spec fn spec_has_inbox(&self, id: u64) -> bool {
        exists|k: int| 0 <= k < self.inboxes.len() && (#[trigger] self.inboxes[k]).id == id
    }

    /// The node holds at least one subscription to the topic.
    pub open spec fn spec_subscribed(&self, topic: Seq<u8>) -> bool {
        exists|k: int| 0 <= k < self.inboxes.len() && (#[trigger] self.inboxes[k]).topic@ == topic
    }

    /// A fresh node with no peers, topics or subscriptions.
    pub fn new(local_peer: PeerNum, config: Config) -> (r: Router)
        requires
            config.wf(),
        ensures
            r.wf(),
            r.local_peer == local_peer,
            r.config == config,
            r.next_seq == 0,
            r.next_inbox == 0,
            forall|t: Seq<u8>| !r.spec_topic_known(t),
            forall|id: u64| !r.spec_has_inbox(id),
            forall|t: Seq<u8>| !r.spec_subscribed(t),
            forall|p: PeerNum| !r.registry.spec_has(p),
            forall|p: PeerNum| !r.registry.spec_connected(p),
            forall|f: PeerNum, s: u64, t: u64| !r.cache.spec_seen(f, s, t),
    {
        Router {
            local_peer,
            config,
            next_seq: 0,
            next_inbox: 0,
            registry: PeerRegistry::new(config.peer_ttl),
            topics: Vec::new(),
            inboxes: Vec::new(),
            cache: MessageCache::new(config.cache_window),
        }
    }

    /// This node's own identity.
    pub fn peer_id(&self) -> (r: PeerNum)
        ensures
            r == self.local_peer,
    {
        self.local_peer
    }

    /// Index of the topic state for this name, if any.
    fn find_topic(&self, name: &Vec<u8>) -> (r: Option<usize>)
        ensures
            match r {
                Some(ti) => ti < self.topics.len() && self.topics[ti as int].name@ == name@,
                None => !self.spec_topic_known(name@),
            },
    {
        let mut i: usize = 0;
        while i < self.topics.len()
            invariant
                i <= self.topics.len(),
                forall|j: int| 0 <= j < i ==> (#[trigger] self.topics[j]).name@ != name@,
            decreases self.topics.len() - i,
        {
            if bytes_eq(&self.topics[i].name, name) {
                return Some(i);
            }
            i += 1;
        }
        None
    }

    /// Index of the inbox with this handle, if any.
    fn find_inbox(&self, id: u64) -> (r: Option<usize>)
        ensures
            match r {
                Some(k) => k < self.inboxes.len() && self.inboxes[k as int].id == id,
                None => !self.spec_has_inbox(id),
            },
    {
        let mut i: usize = 0;
        while i < self.inboxes.len()
            invariant
                i <= self.inboxes.len(),
                forall|j: int| 0 <= j < i ==> (#[trigger] self.inboxes[j]).id != id,
            decreases self.inboxes.len() - i,
        {
            if self.inboxes[i].id == id {
                return Some(i);
            }
            i += 1;
        }
        None
    }
}

/// Interest announcements for every connected peer.
fn announce_interest(reg: &PeerRegistry, topic: &Vec<u8>, subscribe: bool) -> (r: Vec<Action>)
    requires
        reg.wf(),
    ensures
        announces(r@, *reg, topic@, subscribe),
{
    let ids = reg.connected_ids();
    let mut out: Vec<Action> = Vec::new();
    let mut i: usize = 0;
    while i < ids.len()
        invariant
            reg.wf(),
            i <= ids.len(),
            ids@.no_duplicates(),
            forall|p: PeerNum| ids@.contains(p) == reg.spec_connected(p),
            out.len() == i,
            forall|j: int|
                0 <= j < i ==> action_to(#[trigger] out[j]) == ids[j] && is_interest(
                    action_env(out[j]),
                    topic@,
                    subscribe,
                ),
        decreases ids.len() - i,
    {
        let envelope = Envelope::Interest { topic: copy_bytes(topic), subscribe };
        proof {
            assert(ids@.contains(ids[i as int]));
        }
        out.push(Action::Send { to: ids[i], envelope });
        i += 1;
    }
    proof {
        assert forall|p: PeerNum| reg.spec_connected(p) implies sent_to(out@, p) by {
            assert(ids@.contains(p));
            let j = choose|j: int| 0 <= j < ids@.len() && ids@[j] == p;
            assert(action_to(out@[j]) == p);
        }
        assert forall|i1: int, j1: int| 0 <= i1 < j1 < out@.len()
            implies action_to(out@[i1]) != action_to(out@[j1]) by {
            assert(action_to(out@[i1]) == ids@[i1] && action_to(out@[j1]) == ids@[j1]);
        }
    }
    out
}

/// Publish sends for every mesh member except, possibly, one peer.
fn flood_mesh(
    mesh: &Vec<PeerNum>,
    except: Option<PeerNum>,
    topic: &Vec<u8>,
    from: PeerNum,
    sq: u64,
    data: &Vec<u8>,
) -> (r: Vec<Action>)
    ensures
        floods(r@, mesh@, except, topic@, from, sq, data@),
{
    let mut out: Vec<Action> = Vec::new();
    let mut i: usize = 0;
    while i < mesh.len()
        invariant
            i <= mesh.len(),
            forall|j: int|
                0 <= j < out.len() ==> mesh@.contains(action_to(#[trigger] out[j])) && !excluded(
                    except,
                    action_to(out[j]),
                ) && is_publish(action_env(out[j]), topic@, from, sq, data@),
            forall|j: int|
                0 <= j < i && !excluded(except, #[trigger] mesh[j]) ==> sent_to(out@, mesh[j]),
        decreases mesh.len() - i,
    {
        let p = mesh[i];
        let skip = match except {
            Some(s) => p == s,
            None => false,
        };
        if !skip {
            let envelope = Envelope::Publish {
                topic: copy_bytes(topic),
                from,
                seq: sq,
                data: copy_bytes(data),
            };
            let ghost out0 = out@;
            proof {
                assert(mesh@.contains(mesh[i as int]));
            }
            out.push(Action::Send { to: p, envelope });
            proof {
                assert(forall|k: int| 0 <= k < out0.len() ==> #[trigger] out[k] == out0[k]);
                assert(action_to(out[out.len() - 1]) == p);
                assert forall|j: int| 0 <= j <= i && !excluded(except, #[trigger] mesh[j])
                    implies sent_to(out@, mesh[j]) by {
                    if j < i {
                        let k = choose|k: int|
                            0 <= k < out0.len() && action_to(#[trigger] out0[k]) == mesh[j];
                        assert(action_to(out@[k]) == mesh[j]);
                    } else {
                        assert(action_to(out@[out@.len() - 1]) == mesh[j]);
                    }
                }
            }
        } else {
            proof {
                assert forall|j: int| 0 <= j <= i && !excluded(except, #[trigger] mesh[j])
                    implies sent_to(out@, mesh[j]) by {
                    assert(j != i);
                }
            }
        }
        i += 1;
    }
    proof {
        assert forall|p: PeerNum| mesh@.contains(p) && !excluded(except, p)
            implies sent_to(out@, p) by {
            let j = choose|j: int| 0 <= j < mesh@.len() && mesh@[j] == p;
        }
    }
    out
}

/// Appends the published message to every inbox of the topic.
fn deliver_all(inboxes: &mut Vec<Inbox>, topic: &Vec<u8>, publisher: PeerNum, data: &Vec<u8>)
    ensures
        delivered(old(inboxes)@, final(inboxes)@, topic@, publisher, data@),
{
    let ghost orig = inboxes@;
    let mut rest: Vec<Inbox> = Vec::new();
    core::mem::swap(&mut rest, inboxes);
    proof {
        assert(rest@ =~= orig.subrange(0, rest.len() as int));
    }
    let mut done: Vec<Inbox> = Vec::new();
    while rest.len() > 0
        invariant
            rest.len() <= orig.len(),
            rest@ == orig.subrange(orig.len() - rest.len(), orig.len() as int),
            done.len() + rest.len() == orig.len(),
            forall|k: int| 0 <= k < done.len() ==> {
                &&& (#[trigger] done[k]).id == orig[k].id
                &&& done[k].topic@ == orig[k].topic@
                &&& (orig[k].topic@ == topic@ ==> queue_extended(
                    orig[k].queue@,
                    done[k].queue@,
                    publisher,
                    data@,
                ))
                &&& (orig[k].topic@ != topic@ ==> done[k].queue == orig[k].queue)
            },
        decreases rest.len(),
    {
        let ghost pos = orig.len() - rest@.len();
        let mut ib = rest.remove(0);
        proof {
            assert(ib == orig[pos]);
            assert(rest@ =~= orig.subrange(orig.len() - rest@.len(), orig.len() as int));
        }
        if bytes_eq(&ib.topic, topic) {
            let ghost q0 = ib.queue@;
            let msg = Message {
                from: vstd::bytes::u64_to_le_bytes(publisher),
                data: copy_bytes(data),
            };
            ib.queue.push(msg);
            proof {
                assert(forall|x: int| 0 <= x < q0.len() ==> #[trigger] ib.queue[x] == q0[x]);
                assert(ib.queue[ib.queue.len() - 1].is_from(publisher, data@));
            }
        }
        let ghost done0 = done@;
        done.push(ib);
        proof {
            assert(forall|k: int| 0 <= k < done0.len() ==> #[trigger] done[k] == done0[k]);
            assert(done[done.len() - 1] == ib);
        }
    }
    *inboxes = done;
}

/// The inbox `ib` stands somewhere in `orig` at or after position `lo`.
pub open spec fn inbox_from_tail(orig: Seq<Inbox>, lo: int, ib: Inbox) -> bool {
    exists|j: int| lo <= j < orig.len() && (#[trigger] orig[j]) == ib
}

/// The node holds a subscription for `topic` among these inboxes.
pub open spec fn subscribed_in(inboxes: Seq<Inbox>, topic: Seq<u8>) -> bool {
    exists|k: int| 0 <= k < inboxes.len() && (#[trigger] inboxes[k]).topic@ == topic
}

/// True when some inbox is for `name`.
fn any_inbox_for(inboxes: &Vec<Inbox>, name: &Vec<u8>) -> (r: bool)
    ensures
        r == subscribed_in(inboxes@, name@),
{
    let mut i: usize = 0;
    while i < inboxes.len()
        invariant
            i <= inboxes.len(),
            forall|j: int| 0 <= j < i ==> (#[trigger] inboxes[j]).topic@ != name@,
        decreases inboxes.len() - i,
    {
        if bytes_eq(&inboxes[i].topic, name) {
            return true;
        }
        i += 1;
    }
    false
}

impl Router {
    /// After one topic's state was replaced by one with the same name, relate
    /// the topic lookup views of the two routers.
    proof fn lemma_topic_update(pre: Router, post: Router, ti: int, nt: TopicState)
        requires
            0 <= ti < pre.topics.len(),
            forall|x: int, y: int|
                0 <= x < y < pre.topics.len() ==> (#[trigger] pre.topics[x]).name@ != (
                #[trigger] pre.topics[y]).name@,
            nt.name@ == pre.topics[ti].name@,
            post.topics@ == pre.topics@.update(ti, nt),
        ensures
            forall|x: int, y: int|
                0 <= x < y < post.topics.len() ==> (#[trigger] post.topics[x]).name@ != (
                #[trigger] post.topics[y]).name@,
            forall|t: Seq<u8>| post.spec_topic_known(t) == pre.spec_topic_known(t),
            forall|t: Seq<u8>, p: PeerNum|
                t != nt.name@ ==> post.spec_topic_subscriber(t, p) == pre.spec_topic_subscriber(
                    t,
                    p,
                ),
            forall|t: Seq<u8>, p: PeerNum|
                t != nt.name@ ==> post.spec_mesh_member(t, p) == pre.spec_mesh_member(t, p),
            forall|p: PeerNum|
                post.spec_topic_subscriber(nt.name@, p) == nt.subscribers@.contains(p),
            forall|p: PeerNum| post.spec_mesh_member(nt.name@, p) == nt.mesh@.contains(p),
            forall|p: PeerNum|
                pre.spec_topic_subscriber(nt.name@, p) == pre.topics[ti].subscribers@.contains(p),
            forall|p: PeerNum|
                pre.spec_mesh_member(nt.name@, p) == pre.topics[ti].mesh@.contains(p),
    {
        assert(forall|x: int|
            0 <= x < post.topics.len() && x != ti ==> #[trigger] post.topics[x] == pre.topics[x]);
        assert(post.topics[ti] == nt);
        assert forall|x: int, y: int| 0 <= x < y < post.topics.len()
            implies (#[trigger] post.topics[x]).name@ != (#[trigger] post.topics[y]).name@ by {
            assert(pre.topics[x].name@ == post.topics[x].name@);
            assert(pre.topics[y].name@ == post.topics[y].name@);
        }
        assert forall|t: Seq<u8>| post.spec_topic_known(t) implies pre.spec_topic_known(t) by {
            let x = choose|x: int|
                0 <= x < post.topics.len() && (#[trigger] post.topics[x]).name@ == t;
            assert(pre.topics[x].name@ == t);
        }
        assert forall|t: Seq<u8>| pre.spec_topic_known(t) implies post.spec_topic_known(t) by {
            let x = choose|x: int|
                0 <= x < pre.topics.len() && (#[trigger] pre.topics[x]).name@ == t;
            assert(post.topics[x].name@ == t);
        }
        assert forall|t: Seq<u8>, p: PeerNum| t != nt.name@ && post.spec_topic_subscriber(t, p)
            implies pre.spec_topic_subscriber(t, p) by {
            let x = choose|x: int|
                0 <= x < post.topics.len() && (#[trigger] post.topics[x]).name@ == t
                    && post.topics[x].subscribers@.contains(p);
            assert(x != ti);
        }
        assert forall|t: Seq<u8>, p: PeerNum| t != nt.name@ && pre.spec_topic_subscriber(t, p)
            implies post.spec_topic_subscriber(t, p) by {
            let x = choose|x: int|
                0 <= x < pre.topics.len() && (#[trigger] pre.topics[x]).name@ == t
                    && pre.topics[x].subscribers@.contains(p);
            assert(x != ti);
            assert(post.topics[x].name@ == t && post.topics[x].subscribers@.contains(p));
        }
        assert forall|t: Seq<u8>, p: PeerNum| t != nt.name@ && post.spec_mesh_member(t, p)
            implies pre.spec_mesh_member(t, p) by {
            let x = choose|x: int|
                0 <= x < post.topics.len() && (#[trigger] post.topics[x]).name@ == t
                    && post.topics[x].mesh@.contains(p);
            assert(x != ti);
        }
        assert forall|t: Seq<u8>, p: PeerNum| t != nt.name@ && pre.spec_mesh_member(t, p)
            implies post.spec_mesh_member(t, p) by {
            let x = choose|x: int|
                0 <= x < pre.topics.len() && (#[trigger] pre.topics[x]).name@ == t
                    && pre.topics[x].mesh@.contains(p);
            assert(x != ti);
            assert(post.topics[x].name@ == t && post.topics[x].mesh@.contains(p));
        }
        assert forall|p: PeerNum| post.spec_topic_subscriber(nt.name@, p)
            implies nt.subscribers@.contains(p) by {
            let x = choose|x: int|
                0 <= x < post.topics.len() && (#[trigger] post.topics[x]).name@ == nt.name@
                    && post.topics[x].subscribers@.contains(p);
            if x != ti {
                assert(pre.topics[x].name@ == nt.name@ && pre.topics[ti].name@ == nt.name@);
            }
        }
        assert forall|p: PeerNum| post.spec_mesh_member(nt.name@, p)
            implies nt.mesh@.contains(p) by {
            let x = choose|x: int|
                0 <= x < post.topics.len() && (#[trigger] post.topics[x]).name@ == nt.name@
                    && post.topics[x].mesh@.contains(p);
            if x != ti {
                assert(pre.topics[x].name@ == nt.name@ && pre.topics[ti].name@ == nt.name@);
            }
        }
        assert forall|p: PeerNum| pre.spec_topic_subscriber(nt.name@, p)
            implies pre.topics[ti].subscribers@.contains(p) by {
            let x = choose|x: int|
                0 <= x < pre.topics.len() && (#[trigger] pre.topics[x]).name@ == nt.name@
                    && pre.topics[x].subscribers@.contains(p);
            if x != ti {
                assert(pre.topics[ti].name@ == nt.name@);
            }
        }
        assert forall|p: PeerNum| pre.spec_mesh_member(nt.name@, p)
            implies pre.topics[ti].mesh@.contains(p) by {
            let x = choose|x: int|
                0 <= x < pre.topics.len() && (#[trigger] pre.topics[x]).name@ == nt.name@
                    && pre.topics[x].mesh@.contains(p);
            if x != ti {
                assert(pre.topics[ti].name@ == nt.name@);
            }
        }
    }

    /// After a topic state for a new name was appended, relate the topic
    /// lookup views of the two routers.
    proof fn lemma_topic_push(pre: Router, post: Router, nt: TopicState)
        requires
            !pre.spec_topic_known(nt.name@),
            forall|x: int, y: int|
                0 <= x < y < pre.topics.len() ==> (#[trigger] pre.topics[x]).name@ != (
                #[trigger] pre.topics[y]).name@,
            post.topics.len() == pre.topics.len() + 1,
            forall|x: int| 0 <= x < pre.topics.len() ==> #[trigger] post.topics[x] == pre.topics[x],
            post.topics[pre.topics.len() as int] == nt,
        ensures
            forall|x: int, y: int|
                0 <= x < y < post.topics.len() ==> (#[trigger] post.topics[x]).name@ != (
                #[trigger] post.topics[y]).name@,
            forall|t: Seq<u8>|
                post.spec_topic_known(t) == (pre.spec_topic_known(t) || t == nt.name@),
            forall|t: Seq<u8>, p: PeerNum|
                t != nt.name@ ==> post.spec_topic_subscriber(t, p) == pre.spec_topic_subscriber(
                    t,
                    p,
                ),
            forall|t: Seq<u8>, p: PeerNum|
                t != nt.name@ ==> post.spec_mesh_member(t, p) == pre.spec_mesh_member(t, p),
            forall|p: PeerNum|
                post.spec_topic_subscriber(nt.name@, p) == nt.subscribers@.contains(p),
            forall|p: PeerNum| post.spec_mesh_member(nt.name@, p) == nt.mesh@.contains(p),
            forall|p: PeerNum| !pre.spec_topic_subscriber(nt.name@, p),
            forall|p: PeerNum| !pre.spec_mesh_member(nt.name@, p),
    {
        let n = pre.topics.len() as int;
        assert forall|x: int, y: int| 0 <= x < y < post.topics.len()
            implies (#[trigger] post.topics[x]).name@ != (#[trigger] post.topics[y]).name@ by {
            if y < n {
                assert(pre.topics[x].name@ != pre.topics[y].name@);
            } else {
                if post.topics[x].name@ == nt.name@ {
                    assert(pre.topics[x].name@ == nt.name@);
                }
            }
        }
        assert forall|t: Seq<u8>| post.spec_topic_known(t)
            implies (pre.spec_topic_known(t) || t == nt.name@) by {
            let x = choose|x: int|
                0 <= x < post.topics.len() && (#[trigger] post.topics[x]).name@ == t;
            if x < n {
                assert(pre.topics[x].name@ == t);
            }
        }
        assert forall|t: Seq<u8>| pre.spec_topic_known(t) implies post.spec_topic_known(t) by {
            let x = choose|x: int|
                0 <= x < pre.topics.len() && (#[trigger] pre.topics[x]).name@ == t;
            assert(post.topics[x].name@ == t);
        }
        assert(post.topics[n].name@ == nt.name@);
        assert forall|t: Seq<u8>, p: PeerNum| t != nt.name@ && post.spec_topic_subscriber(t, p)
            implies pre.spec_topic_subscriber(t, p) by {
            let x = choose|x: int|
                0 <= x < post.topics.len() && (#[trigger] post.topics[x]).name@ == t
                    && post.topics[x].subscribers@.contains(p);
            assert(x < n);
        }
        assert forall|t: Seq<u8>, p: PeerNum| t != nt.name@ && pre.spec_topic_subscriber(t, p)
            implies post.spec_topic_subscriber(t, p) by {
            let x = choose|x: int|
                0 <= x < pre.topics.len() && (#[trigger] pre.topics[x]).name@ == t
                    && pre.topics[x].subscribers@.contains(p);
            assert(post.topics[x].name@ == t && post.topics[x].subscribers@.contains(p));
        }
        assert forall|t: Seq<u8>, p: PeerNum| t != nt.name@ && post.spec_mesh_member(t, p)
            implies pre.spec_mesh_member(t, p) by {
            let x = choose|x: int|
                0 <= x < post.topics.len() && (#[trigger] post.topics[x]).name@ == t
                    && post.topics[x].mesh@.contains(p);
            assert(x < n);
        }
        assert forall|t: Seq<u8>, p: PeerNum| t != nt.name@ && pre.spec_mesh_member(t, p)
            implies post.spec_mesh_member(t, p) by {
            let x = choose|x: int|
                0 <= x < pre.topics.len() && (#[trigger] pre.topics[x]).name@ == t
                    && pre.topics[x].mesh@.contains(p);
            assert(post.topics[x].name@ == t && post.topics[x].mesh@.contains(p));
        }
        assert forall|p: PeerNum| post.spec_topic_subscriber(nt.name@, p)
            implies nt.subscribers@.contains(p) by {
            let x = choose|x: int|
                0 <= x < post.topics.len() && (#[trigger] post.topics[x]).name@ == nt.name@
                    && post.topics[x].subscribers@.contains(p);
            if x < n {
                assert(pre.topics[x].name@ == nt.name@);
            }
        }
        assert forall|p: PeerNum| post.spec_mesh_member(nt.name@, p)
            implies nt.mesh@.contains(p) by {
            let x = choose|x: int|
                0 <= x < post.topics.len() && (#[trigger] post.topics[x]).name@ == nt.name@
                    && post.topics[x].mesh@.contains(p);
            if x < n {
                assert(pre.topics[x].name@ == nt.name@);
            }
        }
        assert forall|p: PeerNum| pre.spec_topic_subscriber(nt.name@, p) implies false by {
            let x = choose|x: int|
                0 <= x < pre.topics.len() && (#[trigger] pre.topics[x]).name@ == nt.name@
                    && pre.topics[x].subscribers@.contains(p);
        }
        assert forall|p: PeerNum| pre.spec_mesh_member(nt.name@, p) implies false by {
            let x = choose|x: int|
                0 <= x < pre.topics.len() && (#[trigger] pre.topics[x]).name@ == nt.name@
                    && pre.topics[x].mesh@.contains(p);
        }
    }

    /// Opens a new subscription to the topic: a fresh, empty inbox is added,
    /// a topic state is created if none exists, and interest is announced to
    /// every connected peer.  The handle is fresh and the inbox starts empty;
    /// remote subscriber and mesh knowledge is untouched.
    pub fn subscribe(&mut self, topic: &Vec<u8>, now: u64) -> (r: (u64, Vec<Action>))
        requires
            old(self).wf(),
            old(self).next_inbox < u64::MAX,
        ensures
            final(self).wf(),
            r.0 == old(self).next_inbox,
            final(self).next_inbox == old(self).next_inbox + 1,
            !old(self).spec_has_inbox(r.0),
            final(self).spec_has_inbox(r.0),
            final(self).spec_subscribed(topic@),
            final(self).spec_topic_known(topic@),
            final(self).inboxes.len() == old(self).inboxes.len() + 1,
            forall|k: int|
                0 <= k < old(self).inboxes.len() ==> #[trigger] final(self).inboxes[k] == old(self).inboxes[k],
            final(self).inboxes[old(self).inboxes.len() as int].id == r.0,
            final(self).inboxes[old(self).inboxes.len() as int].topic@ == topic@,
            final(self).inboxes[old(self).inboxes.len() as int].queue.len() == 0,
            forall|t: Seq<u8>, p: PeerNum|
                final(self).spec_topic_subscriber(t, p) == old(self).spec_topic_subscriber(t, p),
            forall|t: Seq<u8>, p: PeerNum|
                final(self).spec_mesh_member(t, p) == old(self).spec_mesh_member(t, p),
            final(self).registry == old(self).registry,
            final(self).cache == old(self).cache,
            final(self).local_peer == old(self).local_peer,
            final(self).config == old(self).config,
            final(self).next_seq == old(self).next_seq,
            announces(r.1@, old(self).registry, topic@, true),
    {
        match self.find_topic(topic) {
            Some(ti) => {
                proof {
                    assert(self.topics[ti as int].name@ == topic@);
                    assert(self.spec_topic_known(topic@));
                }
            },
            None => {
                let ghost pre = *self;
                let nt = TopicState::new(copy_bytes(topic));
                let ghost ntg = nt;
                self.topics.push(nt);
                proof {
                    let n = pre.topics.len() as int;
                    assert(forall|x: int|
                        0 <= x < n ==> #[trigger] self.topics[x] == pre.topics[x]);
                    assert(self.topics[n] == ntg);
                    Self::lemma_topic_push(pre, *self, ntg);
                    assert(ntg.name@ == topic@);
                    assert(self.spec_topic_known(topic@));
                    assert forall|t: Seq<u8>, p: PeerNum|
                        self.spec_topic_subscriber(t, p) == pre.spec_topic_subscriber(t, p) by {
                        if t == ntg.name@ {
                            assert(!pre.spec_topic_subscriber(t, p));
                            assert(self.spec_topic_subscriber(t, p)
                                == ntg.subscribers@.contains(p));
                        }
                    }
                    assert forall|t: Seq<u8>, p: PeerNum|
                        self.spec_mesh_member(t, p) == pre.spec_mesh_member(t, p) by {
                        if t == ntg.name@ {
                            assert(!pre.spec_mesh_member(t, p));
                            assert(self.spec_mesh_member(t, p) == ntg.mesh@.contains(p));
                        }
                    }
                }
            },
        }
        let ghost mid = *self;
        let id = self.next_inbox;
        self.next_inbox = self.next_inbox + 1;
        let ghost pre2 = *self;
        self.inboxes.push(Inbox { id, topic: copy_bytes(topic), queue: Vec::new() });
        proof {
            let n = pre2.inboxes.len() as int;
            assert(forall|k: int| 0 <= k < n ==> #[trigger] self.inboxes[k] == pre2.inboxes[k]);
            assert(self.inboxes[n].id == id);
            assert(self.inboxes[n].topic@ == topic@);
            if old(self).spec_has_inbox(id) {
                let k = choose|k: int|
                    0 <= k < old(self).inboxes.len() && (#[trigger] old(self).inboxes[k]).id == id;
            }
            assert(self.topics == mid.topics);
            assert forall|t: Seq<u8>, p: PeerNum|
                self.spec_topic_subscriber(t, p) == mid.spec_topic_subscriber(t, p) by {
                if self.spec_topic_subscriber(t, p) {
                    let x = choose|x: int|
                        0 <= x < self.topics.len() && (#[trigger] self.topics[x]).name@ == t
                            && self.topics[x].subscribers@.contains(p);
                    assert(mid.topics[x].name@ == t && mid.topics[x].subscribers@.contains(p));
                }
                if mid.spec_topic_subscriber(t, p) {
                    let x = choose|x: int|
                        0 <= x < mid.topics.len() && (#[trigger] mid.topics[x]).name@ == t
                            && mid.topics[x].subscribers@.contains(p);
                    assert(self.topics[x].name@ == t && self.topics[x].subscribers@.contains(p));
                }
            }
            assert forall|t: Seq<u8>, p: PeerNum|
                self.spec_mesh_member(t, p) == mid.spec_mesh_member(t, p) by {
                if self.spec_mesh_member(t, p) {
                    let x = choose|x: int|
                        0 <= x < self.topics.len() && (#[trigger] self.topics[x]).name@ == t
                            && self.topics[x].mesh@.contains(p);
                    assert(mid.topics[x].name@ == t && mid.topics[x].mesh@.contains(p));
                }
                if mid.spec_mesh_member(t, p) {
                    let x = choose|x: int|
                        0 <= x < mid.topics.len() && (#[trigger] mid.topics[x]).name@ == t
                            && mid.topics[x].mesh@.contains(p);
                    assert(self.topics[x].name@ == t && self.topics[x].mesh@.contains(p));
                }
            }
            assert(mid.spec_topic_known(topic@));
            let x = choose|x: int|
                0 <= x < mid.topics.len() && (#[trigger] mid.topics[x]).name@ == topic@;
            assert(self.topics[x].name@ == topic@);
            assert(self.spec_topic_known(topic@));
        }
        let actions = announce_interest(&self.registry, topic, true);
        (id, actions)
    }

    /// Closes every local subscription to the topic: the inboxes are removed
    /// (a later read on their handles reports end of stream) and, when any
    /// subscription existed, the withdrawal is announced to every connected
    /// peer.  Remote subscriber knowledge and the meshes are untouched —
    /// dissemination to remote subscribers goes on without a local
    /// subscription.
    pub fn unsubscribe(&mut self, topic: &Vec<u8>) -> (r: (bool, Vec<Action>))
        requires
            old(self).wf(),
        ensures
            final(self).wf(),
            r.0 == old(self).spec_subscribed(topic@),
            !final(self).spec_subscribed(topic@),
            forall|id: u64| final(self).spec_has_inbox(id) ==> old(self).spec_has_inbox(id),
            forall|k: int|
                0 <= k < old(self).inboxes.len() && (#[trigger] old(self).inboxes[k]).topic@
                    == topic@ ==> !final(self).spec_has_inbox(old(self).inboxes[k].id),
            forall|k: int|
                0 <= k < old(self).inboxes.len() && (#[trigger] old(self).inboxes[k]).topic@
                    != topic@ ==> final(self).inboxes@.contains(old(self).inboxes[k]),
            forall|k: int|
                0 <= k < final(self).inboxes.len() ==> old(self).inboxes@.contains(
                    #[trigger] final(self).inboxes[k],
                ) && final(self).inboxes[k].topic@ != topic@,
            final(self).topics == old(self).topics,
            final(self).registry == old(self).registry,
            final(self).cache == old(self).cache,
            final(self).local_peer == old(self).local_peer,
            final(self).config == old(self).config,
            final(self).next_seq == old(self).next_seq,
            final(self).next_inbox == old(self).next_inbox,
            r.0 ==> announces(r.1@, old(self).registry, topic@, false),
            !r.0 ==> r.1@.len() == 0,
    {
        let existed = any_inbox_for(&self.inboxes, topic);
        let ghost orig = self.inboxes@;
        let mut rest: Vec<Inbox> = Vec::new();
        core::mem::swap(&mut rest, &mut self.inboxes);
        let mut kept: Vec<Inbox> = Vec::new();
        proof {
            assert(rest@ =~= orig.subrange(0, rest.len() as int));
        }
        while rest.len() > 0
            invariant
                rest.len() <= orig.len(),
                rest@ == orig.subrange(0, rest.len() as int),
                forall|x: int, y: int|
                    0 <= x < y < orig.len() ==> (#[trigger] orig[x]).id != (#[trigger] orig[y]).id,
                forall|k: int| 0 <= k < kept.len()
                    ==> inbox_from_tail(orig, rest.len() as int, #[trigger] kept[k])
                        && kept[k].topic@ != topic@,
                forall|j: int|
                    rest.len() <= j < orig.len() && (#[trigger] orig[j]).topic@ != topic@
                        ==> kept@.contains(orig[j]),
                forall|k1: int, k2: int|
                    0 <= k1 < k2 < kept.len() ==> (#[trigger] kept[k1]).id != (
                    #[trigger] kept[k2]).id,
            decreases rest.len(),
        {
            let ghost n = rest@.len() as int;
            let ib = rest.pop().unwrap();
            proof {
                assert(ib == orig.subrange(0, n)[n - 1]);
                assert(ib == orig[n - 1]);
                assert(rest@ =~= orig.subrange(0, n - 1));
            }
            if !bytes_eq(&ib.topic, topic) {
                proof {
                    assert forall|k: int| 0 <= k < kept.len()
                        implies (#[trigger] kept[k]).id != ib.id by {
                        let j = choose|j: int| n <= j < orig.len() && (#[trigger] orig[j]) == kept[k];
                        assert(orig[n - 1].id != orig[j].id);
                    }
                }
                let ghost kept0 = kept@;
                kept.push(ib);
                proof {
                    assert(forall|k: int| 0 <= k < kept0.len() ==> #[trigger] kept[k] == kept0[k]);
                    assert(kept[kept.len() - 1] == orig[n - 1]);
                    assert forall|k: int| 0 <= k < kept.len()
                        implies inbox_from_tail(orig, n - 1, #[trigger] kept[k]) by {
                        if k < kept0.len() {
                            let j = choose|j: int|
                                n <= j < orig.len() && (#[trigger] orig[j]) == kept0[k];
                            assert(orig[j] == kept[k]);
                        } else {
                            assert(orig[n - 1] == kept[k]);
                        }
                    }
                    assert forall|j: int|
                        n - 1 <= j < orig.len() && (#[trigger] orig[j]).topic@ != topic@
                            implies kept@.contains(orig[j]) by {
                        if j >= n {
                            let k = choose|k: int| 0 <= k < kept0.len() && kept0[k] == orig[j];
                            assert(kept[k] == orig[j]);
                        } else {
                            assert(kept[kept.len() - 1] == orig[j]);
                        }
                    }
                }
            } else {
                proof {
                    assert forall|k: int| 0 <= k < kept.len()
                        implies inbox_from_tail(orig, n - 1, #[trigger] kept[k]) by {
                        let j = choose|j: int| n <= j < orig.len() && (#[trigger] orig[j]) == kept[k];
                    }
                }
            }
        }
        self.inboxes = kept;
        proof {
            assert forall|k: int| 0 <= k < self.inboxes.len()
                implies orig.contains(#[trigger] self.inboxes[k]) by {
                assert(inbox_from_tail(orig, 0, self.inboxes[k]));
                let j = choose|j: int| 0 <= j < orig.len() && (#[trigger] orig[j]) == self.inboxes[k];
            }
        }
        proof {
            // every removed handle is gone, by uniqueness of handles
            assert forall|k: int|
                0 <= k < orig.len() && (#[trigger] orig[k]).topic@ == topic@
                    implies !self.spec_has_inbox(orig[k].id) by {
                if self.spec_has_inbox(orig[k].id) {
                    let l = choose|l: int|
                        0 <= l < self.inboxes.len() && (#[trigger] self.inboxes[l]).id
                            == orig[k].id;
                    let j = choose|j: int| 0 <= j < orig.len() && orig[j] == self.inboxes[l];
                    assert(orig[j].topic@ != topic@);
                    assert(j != k);
                    assert(old(self).inboxes[j].id != old(self).inboxes[k].id);
                }
            }
            assert forall|id: u64| self.spec_has_inbox(id) implies old(self).spec_has_inbox(
                id,
            ) by {
                let l = choose|l: int|
                    0 <= l < self.inboxes.len() && (#[trigger] self.inboxes[l]).id == id;
                let j = choose|j: int| 0 <= j < orig.len() && orig[j] == self.inboxes[l];
            }
            if self.spec_subscribed(topic@) {
                let k = choose|k: int|
                    0 <= k < self.inboxes.len() && (#[trigger] self.inboxes[k]).topic@ == topic@;
            }
            if old(self).spec_subscribed(topic@) != subscribed_in(orig, topic@) {
                assert(false);
            }
        }
        let actions = if existed {
            announce_interest(&self.registry, topic, false)
        } else {
            Vec::new()
        };
        (existed, actions)
    }

    /// One non-blocking read from a subscription.  The oldest unread message
    /// leaves the queue; an empty queue reads as `Empty`; a handle no
    /// subscription carries any more reads as `Closed`, end of stream.
    pub fn read_inbox(&mut self, id: u64) -> (r: InboxRead)
        requires
            old(self).wf(),
        ensures
            final(self).wf(),
            (r is Closed) == !old(self).spec_has_inbox(id),
            r is Closed ==> *final(self) == *old(self),
            r is Empty ==> *final(self) == *old(self),
            r is Empty ==> exists|k: int|
                0 <= k < old(self).inboxes.len() && (#[trigger] old(self).inboxes[k]).id == id
                    && old(self).inboxes[k].queue.len() == 0,
            match r {
                InboxRead::Msg(m) => exists|k: int|
                    {
                        &&& 0 <= k < old(self).inboxes.len()
                        &&& (#[trigger] old(self).inboxes[k]).id == id
                        &&& old(self).inboxes[k].queue.len() > 0
                        &&& m == old(self).inboxes[k].queue[0]
                        &&& final(self).inboxes.len() == old(self).inboxes.len()
                        &&& final(self).inboxes[k].id == id
                        &&& final(self).inboxes[k].topic@ == old(self).inboxes[k].topic@
                        &&& final(self).inboxes[k].queue@ == old(self).inboxes[k].queue@.subrange(
                            1,
                            old(self).inboxes[k].queue.len() as int,
                        )
                        &&& forall|l: int|
                            0 <= l < old(self).inboxes.len() && l != k
                                ==> #[trigger] final(self).inboxes[l] == old(self).inboxes[l]
                    },
                _ => true,
            },
            final(self).topics == old(self).topics,
            final(self).registry == old(self).registry,
            final(self).cache == old(self).cache,
            final(self).local_peer == old(self).local_peer,
            final(self).config == old(self).config,
            final(self).next_seq == old(self).next_seq,
            final(self).next_inbox == old(self).next_inbox,
            forall|iid: u64| final(self).spec_has_inbox(iid) == old(self).spec_has_inbox(iid),
    {
        match self.find_inbox(id) {
            None => InboxRead::Closed,
            Some(k) => {
                if self.inboxes[k].queue.len() == 0 {
                    proof {
                        assert(self.inboxes[k as int].id == id
                            && self.inboxes[k as int].queue.len() == 0);
                    }
                    InboxRead::Empty
                } else {
                    let mut slot = Inbox { id, topic: Vec::new(), queue: Vec::new() };
                    self.inboxes.set_and_swap(k, &mut slot);
                    let m = slot.queue.remove(0);
                    let upd = Inbox { id, topic: slot.topic, queue: slot.queue };
                    let ghost updg = upd;
                    self.inboxes.set(k, upd);
                    proof {
                        assert(self.inboxes@ =~= old(self).inboxes@.update(k as int, updg));
                        assert(forall|l: int|
                            0 <= l < self.inboxes.len() && l != k ==> #[trigger] self.inboxes[l]
                                == old(self).inboxes[l]);
                        assert(self.inboxes[k as int].queue@ =~= old(self).inboxes[k as int].queue@
                            .subrange(1, old(self).inboxes[k as int].queue.len() as int));
                        assert forall|iid: u64| self.spec_has_inbox(iid) implies old(self).spec_has_inbox(iid) by {
                            let l = choose|l: int|
                                0 <= l < self.inboxes.len() && (#[trigger] self.inboxes[l]).id
                                    == iid;
                            assert(old(self).inboxes[l].id == iid);
                        }
                        assert forall|iid: u64| old(self).spec_has_inbox(iid) implies self
                            .spec_has_inbox(iid) by {
                            let l = choose|l: int|
                                0 <= l < old(self).inboxes.len() && (#[trigger] old(self).inboxes[l]).id == iid;
                            assert(self.inboxes[l].id == iid);
                        }
                    }
                    InboxRead::Msg(m)
                }
            },
        }
    }
}

/// What one heartbeat of upkeep guarantees for one topic, relative to the
/// registry it ran against.
pub open spec fn topic_maintained(
    pre: TopicState,
    post: TopicState,
    reg: PeerRegistry,
    d_low: int,
    d_high: int,
) -> bool {
    &&& post.name == pre.name
    &&& post.subscribers == pre.subscribers
    &&& post.wf()
    &&& post.mesh_connected(reg)
    &&& forall|p: PeerNum| post.mesh@.contains(p) ==> pre.subscribers@.contains(p)
    &&& post.mesh.len() <= d_high
    &&& (post.mesh.len() < d_low ==> forall|p: PeerNum|
        pre.subscribers@.contains(p) && reg.spec_connected(p) ==> post.mesh@.contains(p))
    &&& (pre.spec_eligible(reg).len() >= d_low ==> post.mesh.len() >= d_low)
}

/// Everything a received publish does to the node, as one relation between
/// the state before, the state after, and the actions returned: a fingerprint
/// already seen changes nothing; a novel one enters the cache for the window,
/// is appended once to every inbox of the topic, and is forwarded to every
/// mesh member of the topic except the sender.
pub open spec fn publish_step(
    pre: Router,
    post: Router,
    actions: Seq<Action>,
    sender: PeerNum,
    topic: Seq<u8>,
    from: PeerNum,
    sq: u64,
    data: Seq<u8>,
    now: u64,
) -> bool {
    if pre.cache.spec_seen(from, sq, now) {
        post == pre && actions.len() == 0
    } else {
        &&& forall|t: u64|
            now <= t ==> (post.cache.spec_seen(from, sq, t) <==> t <= now
                + pre.config.cache_window)
        &&& forall|f: PeerNum, s2: u64, t: u64|
            now <= t && !(f == from && s2 == sq) ==> (post.cache.spec_seen(f, s2, t)
                <==> pre.cache.spec_seen(f, s2, t))
        &&& delivered(pre.inboxes@, post.inboxes@, topic, from, data)
        &&& (pre.spec_topic_known(topic) ==> exists|ti: int|
            0 <= ti < pre.topics.len() && (#[trigger] pre.topics[ti]).name@ == topic && floods(
                actions,
                pre.topics[ti].mesh@,
                Some(sender),
                topic,
                from,
                sq,
                data,
            ))
        &&& (!pre.spec_topic_known(topic) ==> actions.len() == 0)
        &&& post.topics == pre.topics
        &&& post.registry == pre.registry
        &&& post.local_peer == pre.local_peer
        &&& post.config == pre.config
        &&& post.next_seq == pre.next_seq
        &&& post.next_inbox == pre.next_inbox
    }
}

/// Everything a received interest announcement does to the node: the sender
/// joins the topic's subscriber set, or leaves it and the mesh; nothing else
/// moves and nothing is sent.
pub open spec fn interest_step(
    pre: Router,
    post: Router,
    sender: PeerNum,
    topic: Seq<u8>,
    subscribe: bool,
) -> bool {
    &&& (subscribe ==> post.spec_topic_subscriber(topic, sender))
    &&& (!subscribe ==> !post.spec_topic_subscriber(topic, sender) && !post.spec_mesh_member(
        topic,
        sender,
    ))
    &&& forall|t: Seq<u8>, p: PeerNum|
        !(t == topic && p == sender) ==> post.spec_topic_subscriber(t, p)
            == pre.spec_topic_subscriber(t, p)
    &&& (subscribe ==> forall|t: Seq<u8>, p: PeerNum|
        post.spec_mesh_member(t, p) == pre.spec_mesh_member(t, p))
    &&& (!subscribe ==> forall|t: Seq<u8>, p: PeerNum|
        !(t == topic && p == sender) ==> post.spec_mesh_member(t, p) == pre.spec_mesh_member(
            t,
            p,
        ))
    &&& post.inboxes == pre.inboxes
    &&& post.registry == pre.registry
    &&& post.cache == pre.cache
    &&& post.local_peer == pre.local_peer
    &&& post.config == pre.config
    &&& post.next_seq == pre.next_seq
    &&& post.next_inbox == pre.next_inbox
}

/// What handling one decoded envelope does: the publish step or the interest
/// step, over the envelope's fields.
pub open spec fn wire_step(
    pre: Router,
    post: Router,
    actions: Seq<Action>,
    sender: PeerNum,
    env: Envelope,
    now: u64,
) -> bool {
    match env {
        Envelope::Publish { topic, from, seq, data } => publish_step(
            pre,
            post,
            actions,
            sender,
            topic@,
            from,
            seq,
            data@,
            now,
        ),
        Envelope::Interest { topic, subscribe } => interest_step(pre, post, sender, topic@, subscribe)
            && actions.len() == 0,
    }
}

/// Law: one step of dissemination misses nobody.  Whenever a publish is
/// flooded — by the publisher to its whole mesh, or by a forwarder to its
/// whole mesh except the peer it heard it from — every mesh member other
/// than the excluded one is among the addressees.
pub proof fn lemma_flood_reaches_mesh(
    actions: Seq<Action>,
    mesh: Seq<PeerNum>,
    except: Option<PeerNum>,
    topic: Seq<u8>,
    from: PeerNum,
    sq: u64,
    data: Seq<u8>,
    q: PeerNum,
)
    requires
        floods(actions, mesh, except, topic, from, sq, data),
        mesh.contains(q),
        !excluded(except, q),
    ensures
        sent_to(actions, q),
{
}

impl Router {
    /// Law: a mesh never references a disconnected peer.  Every operation of
    /// the router keeps this, so it holds at every heartbeat boundary in
    /// particular.
    pub proof fn lemma_mesh_member_connected(r: Router, topic: Seq<u8>, p: PeerNum)
        requires
            r.wf(),
            r.spec_mesh_member(topic, p),
        ensures
            r.registry.spec_connected(p),
    {
        let ti = choose|ti: int|
            0 <= ti < r.topics.len() && (#[trigger] r.topics[ti]).name@ == topic
                && r.topics[ti].mesh@.contains(p);
        assert(r.topics[ti].mesh_connected(r.registry));
    }

    /// Hands the payload to the dissemination layer: the message gets the
    /// next sequence number, its fingerprint enters the duplicate cache (so
    /// the node's own echo is dropped), and it is flooded to every mesh
    /// member of the topic.  Resolves true once handed over; delivery is not
    /// acknowledged.  The publisher's own inboxes receive nothing.
    pub fn publish(&mut self, topic: &Vec<u8>, data: &Vec<u8>, now: u64) -> (r: (bool, Vec<Action>))
        requires
            old(self).wf(),
        ensures
            final(self).wf(),
            r.0 == true,
            final(self).next_seq == (if old(self).next_seq == u64::MAX {
                0u64
            } else {
                (old(self).next_seq + 1) as u64
            }),
            forall|t: u64|
                now <= t ==> (final(self).cache.spec_seen(old(self).local_peer, old(self).next_seq, t)
                    <==> t <= now + old(self).config.cache_window),
            forall|f: PeerNum, sq: u64, t: u64|
                now <= t && !(f == old(self).local_peer && sq == old(self).next_seq)
                    ==> (final(self).cache.spec_seen(f, sq, t) <==> old(self).cache.spec_seen(
                        f,
                        sq,
                        t,
                    )),
            old(self).spec_topic_known(topic@) ==> exists|ti: int|
                0 <= ti < old(self).topics.len() && (#[trigger] old(self).topics[ti]).name@
                    == topic@ && floods(
                    r.1@,
                    old(self).topics[ti].mesh@,
                    None,
                    topic@,
                    old(self).local_peer,
                    old(self).next_seq,
                    data@,
                ),
            !old(self).spec_topic_known(topic@) ==> r.1@.len() == 0,
            final(self).topics == old(self).topics,
            final(self).inboxes == old(self).inboxes,
            final(self).registry == old(self).registry,
            final(self).local_peer == old(self).local_peer,
            final(self).config == old(self).config,
            final(self).next_inbox == old(self).next_inbox,
    {
        let sq = self.next_seq;
        self.next_seq = if self.next_seq == u64::MAX {
            0
        } else {
            self.next_seq + 1
        };
        let lp = self.local_peer;
        self.cache.insert(lp, sq, now);
        let actions = match self.find_topic(topic) {
            Some(ti) => {
                let a = flood_mesh(&self.topics[ti].mesh, None, topic, lp, sq, data);
                proof {
                    assert(old(self).topics[ti as int].name@ == topic@);
                }
                a
            },
            None => Vec::new(),
        };
        (true, actions)
    }

    /// A publish arrived from `sender`.  A fingerprint already in the cache
    /// is dropped silently: no delivery, no forward, no state change.  A
    /// novel one enters the cache, is delivered to every local inbox of the
    /// topic, and is forwarded to every mesh member of the topic except the
    /// sender.
    pub fn handle_publish(
        &mut self,
        sender: PeerNum,
        topic: &Vec<u8>,
        from: PeerNum,
        sq: u64,
        data: &Vec<u8>,
        now: u64,
    ) -> (r: Vec<Action>)
        requires
            old(self).wf(),
        ensures
            final(self).wf(),
            publish_step(*old(self), *final(self), r@, sender, topic@, from, sq, data@, now),
    {
        if self.cache.seen(from, sq, now) {
            return Vec::new();
        }
        self.cache.insert(from, sq, now);
        let ghost pre_inboxes = self.inboxes@;
        deliver_all(&mut self.inboxes, topic, from, data);
        proof {
            assert(delivered(pre_inboxes, self.inboxes@, topic@, from, data@));
            assert(forall|k: int|
                0 <= k < self.inboxes.len() ==> (#[trigger] self.inboxes[k]).id
                    == pre_inboxes[k].id);
        }
        let r = match self.find_topic(topic) {
            Some(ti) => {
                let a = flood_mesh(&self.topics[ti].mesh, Some(sender), topic, from, sq, data);
                proof {
                    assert(old(self).topics[ti as int].name@ == topic@);
                }
                a
            },
            None => Vec::new(),
        };
        r
    }

    /// An interest announcement arrived: `sender` subscribes to or withdraws
    /// from the topic.  A new subscriber joins the topic's subscribed-only
    /// set (never the mesh directly); a withdrawing peer leaves both the
    /// subscriber set and the mesh.  Nothing else changes and nothing is
    /// sent.
    pub fn handle_interest(&mut self, sender: PeerNum, topic: &Vec<u8>, subscribe: bool)
        requires
            old(self).wf(),
        ensures
            final(self).wf(),
            interest_step(*old(self), *final(self), sender, topic@, subscribe),
    {
        match self.find_topic(topic) {
            Some(ti) => {
                let mut slot = TopicState::new(Vec::new());
                self.topics.set_and_swap(ti, &mut slot);
                let mut subs = slot.subscribers;
                let mut msh = slot.mesh;
                if subscribe {
                    push_unique(&mut subs, sender);
                } else {
                    remove_peer(&mut subs, sender);
                    remove_peer(&mut msh, sender);
                }
                let nt = TopicState { name: slot.name, subscribers: subs, mesh: msh };
                let ghost ntg = nt;
                self.topics.set(ti, nt);
                proof {
                    assert(self.topics@ =~= old(self).topics@.update(ti as int, ntg));
                    assert forall|p: PeerNum| ntg.mesh@.contains(p)
                        implies ntg.subscribers@.contains(p) by {
                        assert(old(self).topics[ti as int].mesh@.contains(p) || subscribe);
                        if subscribe {
                            assert(old(self).topics[ti as int].mesh@.contains(p));
                        }
                    }
                    assert(ntg.wf());
                    assert forall|p: PeerNum| ntg.mesh@.contains(p)
                        implies self.registry.spec_connected(p) by {
                        assert(old(self).topics[ti as int].mesh@.contains(p));
                        assert(old(self).topics[ti as int].mesh_connected(old(self).registry));
                    }
                    Self::lemma_topic_update(*old(self), *self, ti as int, ntg);
                    assert(ntg.name@ == topic@);
                    if subscribe {
                        assert(ntg.subscribers@.contains(sender));
                        assert(self.spec_topic_subscriber(topic@, sender)
                            == ntg.subscribers@.contains(sender));
                    }
                    assert forall|t: Seq<u8>, p: PeerNum|
                        !(t == topic@ && p == sender) implies final(self).spec_topic_subscriber(
                            t,
                            p,
                        ) == old(self).spec_topic_subscriber(t, p) by {
                        if t == ntg.name@ {
                            assert(self.spec_topic_subscriber(t, p) == ntg.subscribers@.contains(
                                p,
                            ));
                            assert(old(self).spec_topic_subscriber(t, p) == old(self).topics[ti as int].subscribers@.contains(p));
                        }
                    }
                    if subscribe {
                        assert forall|t: Seq<u8>, p: PeerNum|
                            final(self).spec_mesh_member(t, p) == old(self).spec_mesh_member(
                                t,
                                p,
                            ) by {
                            if t == ntg.name@ {
                                assert(self.spec_mesh_member(t, p) == ntg.mesh@.contains(p));
                                assert(old(self).spec_mesh_member(t, p) == old(self).topics[ti as int].mesh@.contains(p));
                            }
                        }
                    } else {
                        assert forall|t: Seq<u8>, p: PeerNum|
                            !(t == topic@ && p == sender) implies final(self).spec_mesh_member(
                                t,
                                p,
                            ) == old(self).spec_mesh_member(t, p) by {
                            if t == ntg.name@ {
                                assert(self.spec_mesh_member(t, p) == ntg.mesh@.contains(p));
                                assert(old(self).spec_mesh_member(t, p) == old(self).topics[ti as int].mesh@.contains(p));
                            }
                        }
                        assert(!self.spec_topic_subscriber(topic@, sender));
                        assert(!self.spec_mesh_member(topic@, sender));
                    }
                }
            },
            None => {
                if subscribe {
                    let ghost pre = *self;
                    let mut subs: Vec<PeerNum> = Vec::new();
                    subs.push(sender);
                    let nt = TopicState {
                        name: copy_bytes(topic),
                        subscribers: subs,
                        mesh: Vec::new(),
                    };
                    let ghost ntg = nt;
                    self.topics.push(nt);
                    proof {
                        let n = pre.topics.len() as int;
                        assert(forall|x: int|
                            0 <= x < n ==> #[trigger] self.topics[x] == pre.topics[x]);
                        assert(self.topics[n] == ntg);
                        assert(ntg.subscribers@ =~= seq![sender]);
                        assert(ntg.subscribers@[0] == sender);
                        assert(ntg.subscribers@.contains(sender));
                        assert(ntg.wf());
                        Self::lemma_topic_push(pre, *self, ntg);
                        assert(ntg.subscribers@.contains(sender));
                        assert(self.spec_topic_subscriber(topic@, sender));
                        assert forall|t: Seq<u8>, p: PeerNum|
                            !(t == topic@ && p == sender) implies self.spec_topic_subscriber(t, p)
                                == pre.spec_topic_subscriber(t, p) by {
                            if t == ntg.name@ {
                                assert(self.spec_topic_subscriber(t, p)
                                    == ntg.subscribers@.contains(p));
                                assert(!pre.spec_topic_subscriber(t, p));
                            }
                        }
                        assert forall|t: Seq<u8>, p: PeerNum|
                            self.spec_mesh_member(t, p) == pre.spec_mesh_member(t, p) by {
                            if t == ntg.name@ {
                                assert(self.spec_mesh_member(t, p) == ntg.mesh@.contains(p));
                                assert(!pre.spec_mesh_member(t, p));
                            }
                        }
                    }
                } else {
                    proof {
                        if self.spec_topic_subscriber(topic@, sender) {
                            let x = choose|x: int|
                                0 <= x < self.topics.len() && (#[trigger] self.topics[x]).name@
                                    == topic@ && self.topics[x].subscribers@.contains(sender);
                        }
                        if self.spec_mesh_member(topic@, sender) {
                            let x = choose|x: int|
                                0 <= x < self.topics.len() && (#[trigger] self.topics[x]).name@
                                    == topic@ && self.topics[x].mesh@.contains(sender);
                        }
                    }
                }
            },
        }
    }

    /// One unit of wire traffic arrived from `sender` as raw bytes.  Bytes
    /// that encode no envelope — a malformed wire message — are dropped
    /// without any effect; bytes that encode an envelope take exactly the
    /// step `handle_publish` or `handle_interest` takes for its fields.
    pub fn handle_wire(&mut self, sender: PeerNum, bytes: &Vec<u8>, now: u64) -> (r: Vec<Action>)
        requires
            old(self).wf(),
        ensures
            final(self).wf(),
            (forall|env: Envelope| bytes@ != spec_encode(env)) ==> *final(self) == *old(self)
                && r@.len() == 0,
            forall|env: Envelope|
                bytes@ == spec_encode(env) ==> wire_step(
                    *old(self),
                    *final(self),
                    r@,
                    sender,
                    env,
                    now,
                ),
    {
        let blen = bytes.len();
        match decode(bytes) {
            None => Vec::new(),
            Some(env) => {
                let ghost env0 = env;
                let r = match env {
                    Envelope::Publish { topic, from, seq, data } => self.handle_publish(
                        sender,
                        &topic,
                        from,
                        seq,
                        &data,
                        now,
                    ),
                    Envelope::Interest { topic, subscribe } => {
                        self.handle_interest(sender, &topic, subscribe);
                        Vec::new()
                    },
                };
                proof {
                    assert(wire_step(*old(self), *self, r@, sender, env0, now));
                    assert forall|env2: Envelope| bytes@ == spec_encode(env2)
                        implies wire_step(*old(self), *self, r@, sender, env2, now) by {
                        crate::codec::lemma_encode_shape(env0);
                        crate::codec::lemma_encode_shape(env2);
                        assert(bytes@.len() == blen as int);
                        assert(crate::codec::wf_wire(env0));
                        assert(crate::codec::wf_wire(env2));
                        crate::codec::lemma_encode_injective(env0, env2);
                        match (env0, env2) {
                            (
                                Envelope::Publish { topic: t0, from: f0, seq: q0, data: d0 },
                                Envelope::Publish { topic: t2, from: f2, seq: q2, data: d2 },
                            ) => {
                                assert(t0@ == t2@ && f0 == f2 && q0 == q2 && d0@ == d2@);
                                assert(publish_step(
                                    *old(self),
                                    *self,
                                    r@,
                                    sender,
                                    t2@,
                                    f2,
                                    q2,
                                    d2@,
                                    now,
                                ));
                            },
                            (
                                Envelope::Interest { topic: t0, subscribe: s0 },
                                Envelope::Interest { topic: t2, subscribe: s2 },
                            ) => {
                                assert(t0@ == t2@ && s0 == s2);
                                assert(interest_step(*old(self), *self, sender, t2@, s2));
                            },
                            _ => {
                                assert(false);
                            },
                        }
                    }
                }
                r
            },
        }
    }

    /// Runs one round of mesh upkeep over every topic against the current
    /// registry.  Names, subscribers, inboxes, cache and registry are
    /// untouched; every mesh ends within bounds.
    fn maintain_topics(&mut self)
        requires
            old(self).wf(),
        ensures
            final(self).wf(),
            final(self).registry == old(self).registry,
            final(self).inboxes == old(self).inboxes,
            final(self).cache == old(self).cache,
            final(self).local_peer == old(self).local_peer,
            final(self).config == old(self).config,
            final(self).next_seq == old(self).next_seq,
            final(self).next_inbox == old(self).next_inbox,
            final(self).topics.len() == old(self).topics.len(),
            forall|ti: int|
                0 <= ti < old(self).topics.len() ==> topic_maintained(
                    old(self).topics[ti],
                    #[trigger] final(self).topics[ti],
                    old(self).registry,
                    old(self).config.d_low as int,
                    old(self).config.d_high as int,
                ),
    {
        let ghost orig = self.topics@;
        let mut rest: Vec<TopicState> = Vec::new();
        core::mem::swap(&mut rest, &mut self.topics);
        let mut done: Vec<TopicState> = Vec::new();
        proof {
            assert(rest@ =~= orig.subrange(orig.len() - rest.len(), orig.len() as int));
        }
        while rest.len() > 0
            invariant
                rest.len() <= orig.len(),
                rest@ == orig.subrange(orig.len() - rest.len(), orig.len() as int),
                done.len() + rest.len() == orig.len(),
                self.registry == old(self).registry,
                self.inboxes == old(self).inboxes,
                self.config == old(self).config,
                self.registry.wf(),
                self.config.wf(),
                forall|j: int| 0 <= j < orig.len() ==> (#[trigger] orig[j]).wf(),
                forall|k: int|
                    0 <= k < done.len() ==> topic_maintained(
                        orig[k],
                        #[trigger] done[k],
                        self.registry,
                        self.config.d_low as int,
                        self.config.d_high as int,
                    ),
            decreases rest.len(),
        {
            let ghost pos = orig.len() - rest@.len();
            let t = rest.remove(0);
            proof {
                assert(t == orig[pos]);
                assert(rest@ =~= orig.subrange(orig.len() - rest@.len(), orig.len() as int));
            }
            let t2 = maintain(t, &self.registry, self.config.d_low, self.config.d, self.config.d_high);
            let ghost done0 = done@;
            done.push(t2);
            proof {
                assert(forall|k: int| 0 <= k < done0.len() ==> #[trigger] done[k] == done0[k]);
                assert(done[done.len() - 1] == t2);
                assert(topic_maintained(
                    orig[pos],
                    t2,
                    self.registry,
                    self.config.d_low as int,
                    self.config.d_high as int,
                ));
            }
        }
        self.topics = done;
        proof {
            assert forall|x: int, y: int| 0 <= x < y < self.topics.len()
                implies (#[trigger] self.topics[x]).name@ != (#[trigger] self.topics[y]).name@ by {
                assert(topic_maintained(orig[x], self.topics[x], self.registry,
                    self.config.d_low as int, self.config.d_high as int));
                assert(topic_maintained(orig[y], self.topics[y], self.registry,
                    self.config.d_low as int, self.config.d_high as int));
                assert(orig[x].name@ != orig[y].name@);
            }
        }
    }

    /// The heartbeat tick: a peer record survives if and only if it is
    /// connected or was seen within the time-to-live (which changes no
    /// peer's connectedness), then every topic's mesh is maintained.
    /// Inboxes and the duplicate cache are untouched: the heartbeat never
    /// delivers, drops or sends a message.
    pub fn heartbeat(&mut self, now: u64)
        requires
            old(self).wf(),
        ensures
            final(self).wf(),
            forall|p: PeerNum|
                final(self).registry.spec_has(p) ==> old(self).registry.spec_has(p),
            forall|i: int|
                0 <= i < old(self).registry.records.len() ==> final(self).registry.spec_has(
                    (#[trigger] old(self).registry.records[i]).id,
                ) == spec_keep(old(self).registry.records[i], old(self).registry.ttl, now),
            final(self).inboxes == old(self).inboxes,
            final(self).cache == old(self).cache,
            final(self).local_peer == old(self).local_peer,
            final(self).config == old(self).config,
            final(self).next_seq == old(self).next_seq,
            final(self).next_inbox == old(self).next_inbox,
            forall|p: PeerNum|
                final(self).registry.spec_connected(p) == old(self).registry.spec_connected(p),
            final(self).topics.len() == old(self).topics.len(),
            forall|ti: int|
                0 <= ti < old(self).topics.len() ==> topic_maintained(
                    old(self).topics[ti],
                    #[trigger] final(self).topics[ti],
                    final(self).registry,
                    old(self).config.d_low as int,
                    old(self).config.d_high as int,
                ),
    {
        self.registry.prune(now);
        self.maintain_topics();
    }

    /// A live connection to `id` now exists: the peer is recorded (with the
    /// address it was reached on) and marked connected.  Topic state,
    /// inboxes and the cache are untouched.
    pub fn peer_connected(&mut self, id: PeerNum, addr: Vec<u8>, now: u64)
        requires
            old(self).wf(),
        ensures
            final(self).wf(),
            final(self).registry.spec_connected(id),
            forall|p: PeerNum|
                p != id ==> final(self).registry.spec_connected(p) == old(self).registry.spec_connected(p),
            final(self).topics == old(self).topics,
            final(self).inboxes == old(self).inboxes,
            final(self).cache == old(self).cache,
            final(self).local_peer == old(self).local_peer,
            final(self).config == old(self).config,
            final(self).next_seq == old(self).next_seq,
            final(self).next_inbox == old(self).next_inbox,
    {
        let mut addrs: Vec<Vec<u8>> = Vec::new();
        addrs.push(addr);
        self.registry.upsert(id, addrs, now);
        self.registry.mark_connected(id, now);
        proof {
            assert forall|ti: int| 0 <= ti < self.topics.len()
                implies (#[trigger] self.topics[ti]).mesh_connected(self.registry) by {
                assert forall|p: PeerNum| self.topics[ti].mesh@.contains(p)
                    implies self.registry.spec_connected(p) by {
                    assert(old(self).topics[ti].mesh_connected(old(self).registry));
                    assert(old(self).registry.spec_connected(p));
                }
            }
        }
    }

    /// The connection to `id` is gone: the peer is marked disconnected and
    /// leaves every topic's subscriber set and mesh; then every mesh is
    /// re-maintained at once, promoting replacements where one fell under
    /// the low-water mark.  Inboxes and the cache are untouched.
    pub fn peer_disconnected(&mut self, id: PeerNum, now: u64)
        requires
            old(self).wf(),
        ensures
            final(self).wf(),
            !final(self).registry.spec_connected(id),
            forall|p: PeerNum|
                p != id ==> final(self).registry.spec_connected(p) == old(self).registry.spec_connected(p),
            forall|t: Seq<u8>| !final(self).spec_topic_subscriber(t, id),
            forall|t: Seq<u8>| !final(self).spec_mesh_member(t, id),
            final(self).inboxes == old(self).inboxes,
            final(self).cache == old(self).cache,
            final(self).local_peer == old(self).local_peer,
            final(self).config == old(self).config,
            final(self).next_seq == old(self).next_seq,
            final(self).next_inbox == old(self).next_inbox,
    {
        self.registry.mark_disconnected(id);
        let ghost orig = self.topics@;
        let mut rest: Vec<TopicState> = Vec::new();
        core::mem::swap(&mut rest, &mut self.topics);
        let mut done: Vec<TopicState> = Vec::new();
        proof {
            assert(rest@ =~= orig.subrange(orig.len() - rest.len(), orig.len() as int));
        }
        while rest.len() > 0
            invariant
                rest.len() <= orig.len(),
                rest@ == orig.subrange(orig.len() - rest.len(), orig.len() as int),
                done.len() + rest.len() == orig.len(),
                self.registry.wf(),
                forall|j: int| 0 <= j < orig.len() ==> (#[trigger] orig[j]).wf(),
                forall|j: int|
                    0 <= j < orig.len() ==> (#[trigger] orig[j]).mesh_connected(old(self).registry),
                forall|p: PeerNum|
                    p != id ==> self.registry.spec_connected(p) == old(self).registry.spec_connected(p),
                !self.registry.spec_connected(id),
                forall|k: int| 0 <= k < done.len() ==> {
                    &&& (#[trigger] done[k]).name == orig[k].name
                    &&& done[k].wf()
                    &&& done[k].mesh_connected(self.registry)
                    &&& !done[k].subscribers@.contains(id)
                    &&& !done[k].mesh@.contains(id)
                    &&& forall|p: PeerNum|
                        done[k].subscribers@.contains(p) == (orig[k].subscribers@.contains(p) && p
                            != id)
                },
            decreases rest.len(),
        {
            let ghost pos = orig.len() - rest@.len();
            let mut t = rest.remove(0);
            proof {
                assert(t == orig[pos]);
                assert(rest@ =~= orig.subrange(orig.len() - rest@.len(), orig.len() as int));
            }
            remove_peer(&mut t.subscribers, id);
            remove_peer(&mut t.mesh, id);
            let ghost done0 = done@;
            proof {
                assert forall|p: PeerNum| t.mesh@.contains(p)
                    implies self.registry.spec_connected(p) by {
                    assert(orig[pos].mesh@.contains(p));
                    assert(old(self).registry.spec_connected(p));
                    assert(p != id);
                }
            }
            done.push(t);
            proof {
                assert(forall|k: int| 0 <= k < done0.len() ==> #[trigger] done[k] == done0[k]);
                assert(done[done.len() - 1] == t);
            }
        }
        self.topics = done;
        proof {
            assert forall|x: int, y: int| 0 <= x < y < self.topics.len()
                implies (#[trigger] self.topics[x]).name@ != (#[trigger] self.topics[y]).name@ by {
                assert(self.topics[x].name == orig[x].name);
                assert(self.topics[y].name == orig[y].name);
                assert(orig[x].name@ != orig[y].name@);
            }
        }
        let ghost mid = *self;
        self.maintain_topics();
        proof {
            assert forall|t: Seq<u8>| !self.spec_topic_subscriber(t, id) by {
                if self.spec_topic_subscriber(t, id) {
                    let x = choose|x: int|
                        0 <= x < self.topics.len() && (#[trigger] self.topics[x]).name@ == t
                            && self.topics[x].subscribers@.contains(id);
                    assert(topic_maintained(mid.topics[x], self.topics[x], mid.registry,
                        mid.config.d_low as int, mid.config.d_high as int));
                    assert(self.topics[x].subscribers == mid.topics[x].subscribers);
                    assert(!mid.topics[x].subscribers@.contains(id));
                }
            }
            assert forall|t: Seq<u8>| !self.spec_mesh_member(t, id) by {
                if self.spec_mesh_member(t, id) {
                    let x = choose|x: int|
                        0 <= x < self.topics.len() && (#[trigger] self.topics[x]).name@ == t
                            && self.topics[x].mesh@.contains(id);
                    assert(topic_maintained(mid.topics[x], self.topics[x], mid.registry,
                        mid.config.d_low as int, mid.config.d_high as int));
                    assert(mid.topics[x].subscribers@.contains(id));
                }
            }
        }
    }

    /// Discovery found candidate addresses for a peer: they are recorded,
    /// creating a not-connected record for a new peer.  Connectedness of
    /// every peer, topic state, inboxes and the cache are untouched.
    pub fn discovered(&mut self, id: PeerNum, addrs: Vec<Vec<u8>>, now: u64)
        requires
            old(self).wf(),
        ensures
            final(self).wf(),
            final(self).registry.spec_has(id),
            forall|p: PeerNum|
                final(self).registry.spec_connected(p) == old(self).registry.spec_connected(p),
            forall|k: int|
                0 <= k < addrs.len() ==> final(self).registry.spec_addr_known(
                    id,
                    (#[trigger] addrs[k])@,
                ),
            final(self).topics == old(self).topics,
            final(self).inboxes == old(self).inboxes,
            final(self).cache == old(self).cache,
            final(self).local_peer == old(self).local_peer,
            final(self).config == old(self).config,
            final(self).next_seq == old(self).next_seq,
            final(self).next_inbox == old(self).next_inbox,
    {
        self.registry.upsert(id, addrs, now);
        proof {
            assert forall|ti: int| 0 <= ti < self.topics.len()
                implies (#[trigger] self.topics[ti]).mesh_connected(self.registry) by {
                assert forall|p: PeerNum| self.topics[ti].mesh@.contains(p)
                    implies self.registry.spec_connected(p) by {
                    assert(old(self).topics[ti].mesh_connected(old(self).registry));
                    assert(old(self).registry.spec_connected(p));
                }
            }
        }
    }
}

} // verus!
