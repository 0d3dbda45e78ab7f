//! The wire envelope and its byte codec.
//!
//! Everything a node sends to a peer is one envelope: a publish carrying a
//! topic, the publisher, the publisher-assigned sequence number and the
//! payload, or an interest announcement carrying a topic and whether the
//! sender subscribes or withdraws.  The encoding is a tag byte, then
//! length-prefixed fields with all integers little-endian; `decode` accepts
//! exactly the byte strings that `encode` produces and recovers the fields
//! byte for byte, so arbitrary binary payloads round-trip unchanged.

use vstd::prelude::*;
use vstd::bytes::{
    lemma_auto_spec_u64_to_from_le_bytes, spec_u64_from_le_bytes, spec_u64_to_le_bytes,
    u64_from_le_bytes, u64_to_le_bytes,
};
use crate::{PeerNum, append_bytes, sub_bytes};

verus! {

/// One unit of wire traffic between two peers.
#[derive(Clone, Debug)]
pub enum Envelope {
    /// A message published into `topic`, flooded through the mesh.
    Publish { topic: Vec<u8>, from: PeerNum, seq: u64, data: Vec<u8> },
    /// The sender subscribes to (`subscribe`) or withdraws from (`!subscribe`)
    /// the topic.
    Interest { topic: Vec<u8>, subscribe: bool },
}

/// The envelope is a publish with exactly these fields.
pub open spec fn is_publish(
    e: Envelope,
    topic: Seq<u8>,
    from: PeerNum,
    seq: u64,
    data: Seq<u8>,
) -> bool {
    match e {
        Envelope::Publish { topic: t, from: f, seq: s, data: d } => {
            &&& t@ == topic
            &&& f == from
            &&& s == seq
            &&& d@ == data
        },
        _ => false,
    }
}

/// The envelope is an interest announcement with exactly these fields.
pub open spec fn is_interest(e: Envelope, topic: Seq<u8>, subscribe: bool) -> bool {
    match e {
        Envelope::Interest { topic: t, subscribe: s } => t@ == topic && s == subscribe,
        _ => false,
    }
}

/// Two envelopes carry the same wire content, field views compared.
pub open spec fn same_wire(a: Envelope, b: Envelope) -> bool {
    match (a, b) {
        (
            Envelope::Publish { topic: t1, from: f1, seq: s1, data: d1 },
            Envelope::Publish { topic: t2, from: f2, seq: s2, data: d2 },
        ) => t1@ == t2@ && f1 == f2 && s1 == s2 && d1@ == d2@,
        (
            Envelope::Interest { topic: t1, subscribe: s1 },
            Envelope::Interest { topic: t2, subscribe: s2 },
        ) => t1@ == t2@ && s1 == s2,
        _ => false,
    }
}

/// Field lengths small enough that the encoding's length prefixes are exact.
/// Every envelope that exists at run time satisfies this.
pub open spec fn wf_wire(e: Envelope) -> bool {
    match e {
        Envelope::Publish { topic, data, .. } => 33 + topic@.len() + data@.len() <= u64::MAX,
        Envelope::Interest { topic, .. } => 9 + topic@.len() <= u64::MAX,
    }
}

/// The byte string an envelope is sent as.
pub open spec fn spec_encode(e: Envelope) -> Seq<u8> {
    match e {
        Envelope::Publish { topic, from, seq, data } => seq![1u8]
            + spec_u64_to_le_bytes(topic@.len() as u64) + topic@ + spec_u64_to_le_bytes(from)
            + spec_u64_to_le_bytes(seq) + spec_u64_to_le_bytes(data@.len() as u64) + data@,
        Envelope::Interest { topic, subscribe } => seq![
            if subscribe {
                2u8
            } else {
                3u8
            },
        ] + spec_u64_to_le_bytes(topic@.len() as u64) + topic@,
    }
}

/// Where each field of an encoded envelope stands in the byte string.
pub proof fn lemma_encode_shape(env: Envelope)
    ensures
        spec_encode(env).len() >= 9,
        match env {
            Envelope::Publish { topic, from, seq, data } => {
                &&& spec_encode(env).len() == 33 + topic@.len() + data@.len()
                &&& spec_encode(env)[0] == 1u8
                &&& spec_encode(env).subrange(1, 9) == spec_u64_to_le_bytes(topic@.len() as u64)
                &&& spec_encode(env).subrange(9, 9 + topic@.len() as int) == topic@
                &&& spec_encode(env).subrange(9 + topic@.len() as int, 17 + topic@.len() as int)
                    == spec_u64_to_le_bytes(from)
                &&& spec_encode(env).subrange(17 + topic@.len() as int, 25 + topic@.len() as int)
                    == spec_u64_to_le_bytes(seq)
                &&& spec_encode(env).subrange(25 + topic@.len() as int, 33 + topic@.len() as int)
                    == spec_u64_to_le_bytes(data@.len() as u64)
                &&& spec_encode(env).subrange(
                    33 + topic@.len() as int,
                    spec_encode(env).len() as int,
                ) == data@
            },
            Envelope::Interest { topic, subscribe } => {
                &&& spec_encode(env).len() == 9 + topic@.len()
                &&& spec_encode(env)[0] == if subscribe {
                    2u8
                } else {
                    3u8
                }
                &&& spec_encode(env).subrange(1, 9) == spec_u64_to_le_bytes(topic@.len() as u64)
                &&& spec_encode(env).subrange(9, spec_encode(env).len() as int) == topic@
            },
        },
{
    lemma_auto_spec_u64_to_from_le_bytes();
    match env {
        Envelope::Publish { topic, from, seq, data } => {
            let s = spec_encode(env);
            let tl = topic@.len() as int;
            let dl = data@.len() as int;
            assert(s.len() == 33 + tl + dl);
            assert(s.subrange(1, 9) =~= spec_u64_to_le_bytes(topic@.len() as u64));
            assert(s.subrange(9, 9 + tl) =~= topic@);
            assert(s.subrange(9 + tl, 17 + tl) =~= spec_u64_to_le_bytes(from));
            assert(s.subrange(17 + tl, 25 + tl) =~= spec_u64_to_le_bytes(seq));
            assert(s.subrange(25 + tl, 33 + tl) =~= spec_u64_to_le_bytes(data@.len() as u64));
            assert(s.subrange(33 + tl, s.len() as int) =~= data@);
        },
        Envelope::Interest { topic, subscribe } => {
            let s = spec_encode(env);
            let tl = topic@.len() as int;
            assert(s.len() == 9 + tl);
            assert(s.subrange(1, 9) =~= spec_u64_to_le_bytes(topic@.len() as u64));
            assert(s.subrange(9, s.len() as int) =~= topic@);
        },
    }
}

/// Two envelopes with the same encoding carry the same wire content.
pub proof fn lemma_encode_injective(a: Envelope, b: Envelope)
    requires
        wf_wire(a),
        wf_wire(b),
        spec_encode(a) == spec_encode(b),
    ensures
        same_wire(a, b),
{
    lemma_auto_spec_u64_to_from_le_bytes();
    lemma_encode_shape(a);
    lemma_encode_shape(b);
    let s = spec_encode(a);
    match (a, b) {
        (
            Envelope::Publish { topic: t1, from: f1, seq: q1, data: d1 },
            Envelope::Publish { topic: t2, from: f2, seq: q2, data: d2 },
        ) => {
            assert(spec_u64_from_le_bytes(s.subrange(1, 9)) == t1@.len() as u64);
            assert(spec_u64_from_le_bytes(s.subrange(1, 9)) == t2@.len() as u64);
            assert(t1@.len() as u64 == t1@.len());
            assert(t2@.len() as u64 == t2@.len());
            assert(t1@.len() == t2@.len());
            let tl = t1@.len() as int;
            assert(t1@ == s.subrange(9, 9 + tl) && t2@ == s.subrange(9, 9 + tl));
            assert(spec_u64_to_le_bytes(f1) == s.subrange(9 + tl, 17 + tl));
            assert(f1 == spec_u64_from_le_bytes(s.subrange(9 + tl, 17 + tl)));
            assert(f2 == spec_u64_from_le_bytes(s.subrange(9 + tl, 17 + tl)));
            assert(q1 == spec_u64_from_le_bytes(s.subrange(17 + tl, 25 + tl)));
            assert(q2 == spec_u64_from_le_bytes(s.subrange(17 + tl, 25 + tl)));
            assert(d1@ == s.subrange(33 + tl, s.len() as int));
            assert(d2@ == s.subrange(33 + tl, s.len() as int));
        },
        (
            Envelope::Interest { topic: t1, subscribe: s1 },
            Envelope::Interest { topic: t2, subscribe: s2 },
        ) => {
            assert(t1@ == s.subrange(9, s.len() as int));
            assert(t2@ == s.subrange(9, s.len() as int));
            assert(s.len() >= 9);
            if s1 != s2 {
                assert(s[0] == 2u8 || s[0] == 3u8);
                assert(false);
            }
        },
        (Envelope::Publish { .. }, Envelope::Interest { .. }) => {
            assert(s[0] == 1u8 && (s[0] == 2u8 || s[0] == 3u8));
        },
        (Envelope::Interest { .. }, Envelope::Publish { .. }) => {
            assert(s[0] == 1u8 && (s[0] == 2u8 || s[0] == 3u8));
        },
    }
}

/// Turns an envelope into the byte string the wire carries.
pub fn encode(e: &Envelope) -> (r: Vec<u8>)
    ensures
        r@ == spec_encode(*e),
{
    proof {
        lemma_auto_spec_u64_to_from_le_bytes();
    }
    let mut out: Vec<u8> = Vec::new();
    match e {
        Envelope::Publish { topic, from, seq, data } => {
            out.push(1u8);
            let mut piece = u64_to_le_bytes(topic.len() as u64);
            out.append(&mut piece);
            append_bytes(&mut out, topic);
            let mut fb = u64_to_le_bytes(*from);
            out.append(&mut fb);
            let mut qb = u64_to_le_bytes(*seq);
            out.append(&mut qb);
            let mut db = u64_to_le_bytes(data.len() as u64);
            out.append(&mut db);
            append_bytes(&mut out, data);
            proof {
                assert(out@ =~= spec_encode(*e));
            }
        },
        Envelope::Interest { topic, subscribe } => {
            if *subscribe {
                out.push(2u8);
            } else {
                out.push(3u8);
            }
            let mut piece = u64_to_le_bytes(topic.len() as u64);
            out.append(&mut piece);
            append_bytes(&mut out, topic);
            proof {
                assert(out@ =~= spec_encode(*e));
            }
        },
    }
    out
}

/// Little-endian read of eight bytes at `off`.
fn read_u64(bytes: &Vec<u8>, off: usize) -> (x: u64)
    requires
        off + 8 <= bytes.len(),
    ensures
        x == spec_u64_from_le_bytes(bytes@.subrange(off as int, off as int + 8)),
{
    let piece = sub_bytes(bytes, off, off + 8);
    u64_from_le_bytes(piece.as_slice())
}

/// Parses a byte string back into the envelope it encodes.
///
/// Returns the envelope whose encoding is exactly `bytes`, and `None` when no
/// envelope encodes to `bytes` — a malformed wire message.
pub fn decode(bytes: &Vec<u8>) -> (r: Option<Envelope>)
    ensures
        r matches Some(env) ==> bytes@ == spec_encode(env),
        r is None ==> forall|env: Envelope| bytes@ != spec_encode(env),
{
    proof {
        lemma_auto_spec_u64_to_from_le_bytes();
    }
    if bytes.len() < 9 {
        proof {
            assert forall|env: Envelope| bytes@ != spec_encode(env) by {
                lemma_encode_shape(env);
            }
        }
        return None;
    }
    let tag = bytes[0];
    let tlen = read_u64(bytes, 1);
    let blen = bytes.len() as u128;
    if tag == 1 {
        if blen < 33u128 + (tlen as u128) {
            proof {
                assert forall|env: Envelope| bytes@ != spec_encode(env) by {
                    lemma_encode_shape(env);
                    if bytes@ == spec_encode(env) {
                        match env {
                            Envelope::Publish { topic, from, seq, data } => {
                                assert(33 + topic@.len() + data@.len() == bytes@.len());
                                assert(topic@.len() as u64 == tlen);
                            },
                            Envelope::Interest { .. } => {
                                assert(bytes@[0] == 2u8 || bytes@[0] == 3u8);
                            },
                        }
                    }
                }
            }
            return None;
        }
        let tl = tlen as usize;
        let topic = sub_bytes(bytes, 9, 9 + tl);
        let from = read_u64(bytes, 9 + tl);
        let seq = read_u64(bytes, 17 + tl);
        let dlen = read_u64(bytes, 25 + tl);
        if blen != 33u128 + (tlen as u128) + (dlen as u128) {
            proof {
                assert forall|env: Envelope| bytes@ != spec_encode(env) by {
                    lemma_encode_shape(env);
                    if bytes@ == spec_encode(env) {
                        match env {
                            Envelope::Publish { topic: t, from: f, seq: q, data: d } => {
                                assert(33 + t@.len() + d@.len() == bytes@.len());
                                assert(t@.len() as u64 == tlen);
                                assert(d@.len() as u64 == dlen);
                            },
                            Envelope::Interest { .. } => {
                                assert(bytes@[0] == 2u8 || bytes@[0] == 3u8);
                            },
                        }
                    }
                }
            }
            return None;
        }
        let data = sub_bytes(bytes, 33 + tl, bytes.len());
        let env = Envelope::Publish { topic, from, seq, data };
        proof {
            lemma_encode_shape(env);
            assert(bytes@ =~= spec_encode(env));
        }
        Some(env)
    } else if tag == 2 || tag == 3 {
        if blen != 9u128 + (tlen as u128) {
            proof {
                assert forall|env: Envelope| bytes@ != spec_encode(env) by {
                    lemma_encode_shape(env);
                    if bytes@ == spec_encode(env) {
                        match env {
                            Envelope::Publish { .. } => {
                                assert(bytes@[0] == 1u8);
                            },
                            Envelope::Interest { topic: t, subscribe } => {
                                assert(9 + t@.len() == bytes@.len());
                                assert(t@.len() as u64 == tlen);
                            },
                        }
                    }
                }
            }
            return None;
        }
        let topic = sub_bytes(bytes, 9, bytes.len());
        let env = Envelope::Interest { topic, subscribe: tag == 2 };
        proof {
            lemma_encode_shape(env);
            assert(bytes@ =~= spec_encode(env));
        }
        Some(env)
    } else {
        proof {
            assert forall|env: Envelope| bytes@ != spec_encode(env) by {
                lemma_encode_shape(env);
                if bytes@ == spec_encode(env) {
                    assert(bytes@[0] == 1u8 || bytes@[0] == 2u8 || bytes@[0] == 3u8);
                }
            }
        }
        None
    }
}

} // verus!
