//! A decentralized topic-based publish/subscribe dissemination core.
//!
//! Peers join named topics and exchange binary payloads; every subscriber of a
//! topic receives every message published to it, with no central broker.  The
//! crate holds the protocol logic alone: which gossip neighbors a node keeps
//! per topic (the mesh), how a published message is flooded to them, how
//! duplicates are suppressed, and how the set of known peers is kept current.
//! Transport, peer identity cryptography and the event loop that feeds wire
//! bytes in and carries wire bytes out live with the host, which drives a
//! [`router::Router`] with plain events and performs the [`router::Action`]s
//! it hands back.

use vstd::prelude::*;
use vstd::string::{StrSliceExecFns, StringExecFns};

pub mod cache;
pub mod codec;
pub mod mesh;
pub mod registry;
pub mod router;

verus! {

/// Compact identifier of a peer, assigned by the host when it maps a
/// transport-level identity to this node-local numeric handle.  All protocol
/// state is keyed by it.
pub type PeerNum = u64;

/// A message as delivered to a local subscriber: the publisher's identity in
/// byte form together with the payload.
#[derive(PartialEq, Eq, Clone, Debug)]
pub struct Message {
    /// Byte form of the publisher's peer number (little-endian, 8 bytes).
    pub from: Vec<u8>,
    /// Arbitrary payload bytes.
    pub data: Vec<u8>,
}

/// The character for one decimal digit.
pub open spec fn digit_char(d: u8) -> char
    recommends
        d < 10,
{
    ((48 + d) as u8) as char
}

/// Decimal digits of `n`, most significant first.
pub open spec fn spec_decimal(n: u8) -> Seq<char>
    decreases n,
{
    if n < 10 {
        seq![digit_char(n)]
    } else {
        spec_decimal(n / 10).push(digit_char(n % 10))
    }
}

/// The bytes rendered as a bracketless list: decimal numbers separated by
/// a comma and a space.
pub open spec fn spec_byte_list(s: Seq<u8>) -> Seq<char>
    decreases s.len(),
{
    if s.len() == 0 {
        Seq::empty()
    } else if s.len() == 1 {
        spec_decimal(s[0])
    } else {
        spec_byte_list(s.drop_last()) + ", "@ + spec_decimal(s.last())
    }
}

/// The message rendered as text: publisher bytes and payload bytes, each as
/// a bracketed decimal list.
pub open spec fn spec_describe(m: Message) -> Seq<char> {
    "PeerId: ["@ + spec_byte_list(m.from@) + "], Data: ["@ + spec_byte_list(m.data@) + "]"@
}

impl Message {
    /// True when this message carries exactly the given publisher and payload.
    pub open spec fn is_from(&self, publisher: PeerNum, data: Seq<u8>) -> bool {
        &&& self.from@ == vstd::bytes::spec_u64_to_le_bytes(publisher)
        &&& self.data@ == data
    }

    /// The message as text, character for character `spec_describe`.
    pub fn describe(&self) -> (r: String)
        ensures
            r@ == spec_describe(*self),
    {
        let mut out = String::new();
        out.append("PeerId: [");
        append_byte_list(&mut out, &self.from);
        out.append("], Data: [");
        append_byte_list(&mut out, &self.data);
        out.append("]");
        proof {
            assert(out@ =~= spec_describe(*self));
        }
        out
    }
}

/// In the digit table, position `d` holds the character for `d`.
proof fn lemma_digit_table(d: u8)
    requires
        d < 10,
    ensures
        "0123456789"@.len() == 10,
        "0123456789"@[d as int] == digit_char(d),
{
    reveal_strlit("0123456789");
    if d == 0 {
    } else if d == 1 {
    } else if d == 2 {
    } else if d == 3 {
    } else if d == 4 {
    } else if d == 5 {
    } else if d == 6 {
    } else if d == 7 {
    } else if d == 8 {
    } else {
    }
}

/// Appends the character for one decimal digit.
fn push_digit(out: &mut String, d: u8)
    requires
        d < 10,
    ensures
        final(out)@ == old(out)@.push(digit_char(d)),
{
    let table = "0123456789";
    proof {
        lemma_digit_table(d);
    }
    let piece = table.substring_char(d as usize, (d as usize) + 1);
    out.append(piece);
    proof {
        assert(piece@ =~= seq![digit_char(d)]);
        assert(out@ =~= old(out)@.push(digit_char(d)));
    }
}

/// Appends the decimal digits of `n`, most significant first.
fn append_decimal(out: &mut String, n: u8)
    ensures
        final(out)@ == old(out)@ + spec_decimal(n),
    decreases n,
{
    if n >= 10 {
        append_decimal(out, n / 10);
        push_digit(out, n % 10);
        proof {
            assert(out@ =~= old(out)@ + spec_decimal(n));
        }
    } else {
        push_digit(out, n % 10);
        proof {
            assert(n % 10 == n);
            assert(out@ =~= old(out)@ + spec_decimal(n));
        }
    }
}

/// Appends the bytes as a comma-separated decimal list.
fn append_byte_list(out: &mut String, s: &Vec<u8>)
    ensures
        final(out)@ == old(out)@ + spec_byte_list(s@),
{
    let mut i: usize = 0;
    while i < s.len()
        invariant
            i <= s.len(),
            out@ == old(out)@ + spec_byte_list(s@.subrange(0, i as int)),
        decreases s.len() - i,
    {
        if i > 0 {
            out.append(", ");
        }
        append_decimal(out, s[i]);
        proof {
            let pre = s@.subrange(0, i as int);
            let cur = s@.subrange(0, i + 1);
            assert(cur.last() == s@[i as int]);
            if i == 0 {
                assert(cur.len() == 1);
                assert(out@ =~= old(out)@ + spec_byte_list(cur));
            } else {
                assert(cur.drop_last() =~= pre);
                assert(out@ =~= old(out)@ + (spec_byte_list(pre) + ", "@ + spec_decimal(s@[i as int])));
                assert(out@ =~= old(out)@ + spec_byte_list(cur));
            }
        }
        i += 1;
    }
    proof {
        assert(s@.subrange(0, s.len() as int) =~= s@);
    }
}

/// Byte-string equality, the way topic names and addresses are compared.
pub fn bytes_eq(a: &Vec<u8>, b: &Vec<u8>) -> (r: bool)
    ensures
        r == (a@ == b@),
{
    if a.len() != b.len() {
        return false;
    }
    let mut i: usize = 0;
    while i < a.len()
        invariant
            i <= a.len(),
            a.len() == b.len(),
            forall|j: int| 0 <= j < i ==> a@[j] == b@[j],
        decreases a.len() - i,
    {
        if a[i] != b[i] {
            return false;
        }
        i += 1;
    }
    proof {
        assert(a@ =~= b@);
    }
    true
}

/// Appends a copy of `src` to `out`.
pub fn append_bytes(out: &mut Vec<u8>, src: &Vec<u8>)
    ensures
        final(out)@ == old(out)@ + src@,
{
    let mut i: usize = 0;
    while i < src.len()
        invariant
            i <= src.len(),
            out@ == old(out)@ + src@.subrange(0, i as int),
        decreases src.len() - i,
    {
        out.push(src[i]);
        proof {
            assert(out@ =~= old(out)@ + src@.subrange(0, i + 1 as int));
        }
        i += 1;
    }
    proof {
        assert(out@ =~= old(out)@ + src@);
    }
}

/// A fresh copy of the bytes `src[lo..hi]`.
pub fn sub_bytes(src: &Vec<u8>, lo: usize, hi: usize) -> (r: Vec<u8>)
    requires
        lo <= hi <= src.len(),
    ensures
        r@ == src@.subrange(lo as int, hi as int),
{
    let mut out: Vec<u8> = Vec::new();
    let mut i: usize = lo;
    while i < hi
        invariant
            lo <= i <= hi <= src.len(),
            out@ == src@.subrange(lo as int, i as int),
        decreases hi - i,
    {
        out.push(src[i]);
        proof {
            assert(out@ =~= src@.subrange(lo as int, i + 1 as int));
        }
        i += 1;
    }
    out
}

/// A fresh copy of the whole byte string `src`.
pub fn copy_bytes(src: &Vec<u8>) -> (r: Vec<u8>)
    ensures
        r@ == src@,
{
    let r = sub_bytes(src, 0, src.len());
    proof {
        assert(src@.subrange(0, src.len() as int) =~= src@);
    }
    r
}

} // verus!
