//! The three-way identity space of the cluster: peer nodes, external
//! clients, and the well-known external key-value store, together with the
//! compact textual wire form and its round-trip laws.

use vstd::prelude::*;

use crate::dec::{
    all_digits, canonical_dec, dec_digits, dec_value, format_u32, lemma_dec_digits_canonical,
    lemma_dec_digits_of_value, lemma_dec_value_of_digits, parse_u32,
};
use crate::Error;

verus! {

/// A participant of the cluster protocol.
#[derive(Clone, Copy, Debug, PartialEq, Eq, Hash, Structural)]
pub struct NodeId {
    pub imp: NodeIdImp,
}

/// The three kinds of participant: an external (Maelstrom) client `c<uint>`,
/// a cluster node `n<uint>`, and the external store `seq-kv`.
#[derive(Clone, Copy, Debug, PartialEq, Eq, Hash, Structural)]
pub enum NodeIdImp {
    Maelstrom(u32),
    Node(u32),
    SeqKv,
}

/// The bytes of the literal `seq-kv`.
pub open spec fn seq_kv_bytes() -> Seq<u8> {
    seq![0x73u8, 0x65u8, 0x71u8, 0x2du8, 0x6bu8, 0x76u8]
}

/// The textual wire form of an identity: `c<uint>`, `n<uint>`, or `seq-kv`.
pub open spec fn spec_format(id: NodeId) -> Seq<u8> {
    match id.imp {
        NodeIdImp::Maelstrom(v) => seq![0x63u8] + dec_digits(v as nat),
        NodeIdImp::Node(v) => seq![0x6eu8] + dec_digits(v as nat),
        NodeIdImp::SeqKv => seq_kv_bytes(),
    }
}

/// The identity a textual wire form denotes, if any: `seq-kv`, or a `c` / `n`
/// prefix followed by decimal digits whose value fits in 32 bits.
pub open spec fn spec_parse(s: Seq<u8>) -> Option<NodeId> {
    if s == seq_kv_bytes() {
        Some(NodeId { imp: NodeIdImp::SeqKv })
    } else if s.len() >= 2 && (s[0] == 0x63 || s[0] == 0x6e) && all_digits(s.skip(1)) && dec_value(
        s.skip(1),
    ) <= u32::MAX {
        if s[0] == 0x63 {
            Some(NodeId { imp: NodeIdImp::Maelstrom(dec_value(s.skip(1)) as u32) })
        } else {
            Some(NodeId { imp: NodeIdImp::Node(dec_value(s.skip(1)) as u32) })
        }
    } else {
        None
    }
}

/// A wire form in which the numeric part carries no superfluous leading
/// zero; every formatted identity is of this shape.
pub open spec fn canonical_identity(s: Seq<u8>) -> bool {
    s == seq_kv_bytes() || canonical_dec(s.skip(1))
}

impl NodeId {
    /// The identity of the well-known external key-value store.
    pub fn seq_kv() -> (r: Self)
        ensures
            r.imp == NodeIdImp::SeqKv,
    {
        Self { imp: NodeIdImp::SeqKv }
    }

    /// The identity of the cluster node numbered `value`.
    pub fn node(value: u32) -> (r: Self)
        ensures
            r.imp == NodeIdImp::Node(value),
    {
        Self { imp: NodeIdImp::Node(value) }
    }

    /// The identity of the external client numbered `value`.
    pub fn maelstrom(value: u32) -> (r: Self)
        ensures
            r.imp == NodeIdImp::Maelstrom(value),
    {
        Self { imp: NodeIdImp::Maelstrom(value) }
    }

    /// Is this the external key-value store?
    pub fn is_seq_kv(self) -> (r: bool)
        ensures
            r == (self.imp == NodeIdImp::SeqKv),
    {
        matches!(self.imp, NodeIdImp::SeqKv)
    }

    /// The numeric value of the identity; the store, which has none, ranks
    /// above every numbered identity.
    pub fn value(self) -> (r: u32)
        ensures
            r == self.spec_value(),
    {
        match self.imp {
            NodeIdImp::Maelstrom(value) => value,
            NodeIdImp::Node(value) => value,
            NodeIdImp::SeqKv => u32::MAX,
        }
    }

    /// The numeric value `value` returns.
    pub open spec fn spec_value(self) -> u32 {
        match self.imp {
            NodeIdImp::Maelstrom(value) => value,
            NodeIdImp::Node(value) => value,
            NodeIdImp::SeqKv => u32::MAX,
        }
    }

    /// Reads an identity from its textual wire form; fails exactly on text
    /// that denotes no identity.
    pub fn parse(s: &Vec<u8>) -> (r: Result<NodeId, Error>)
        ensures
            match r {
                Ok(id) => spec_parse(s@) == Some(id),
                Err(e) => spec_parse(s@) is None && e == Error::InvalidIdentity,
            },
    {
        if s.len() >= 1 && (s[0] == 0x63 || s[0] == 0x6e) {
            proof {
                assert(s@ != seq_kv_bytes());
            }
            let is_maelstrom = s[0] == 0x63;
            proof {
                assert(s@.skip(1) =~= s@.subrange(1, s@.len() as int));
            }
            match parse_u32(s, 1, s.len()) {
                Some(v) => {
                    if is_maelstrom {
                        Ok(NodeId { imp: NodeIdImp::Maelstrom(v) })
                    } else {
                        Ok(NodeId { imp: NodeIdImp::Node(v) })
                    }
                },
                None => Err(Error::InvalidIdentity),
            }
        } else if s.len() == 6 && s[0] == 0x73 && s[1] == 0x65 && s[2] == 0x71 && s[3] == 0x2d
            && s[4] == 0x6b && s[5] == 0x76 {
            proof {
                assert(s@ =~= seq_kv_bytes());
            }
            Ok(NodeId { imp: NodeIdImp::SeqKv })
        } else {
            proof {
                assert(s@ != seq_kv_bytes()) by {
                    if s@ == seq_kv_bytes() {
                        assert(s@.len() == 6);
                        assert(s@[0] == 0x73 && s@[1] == 0x65 && s@[2] == 0x71 && s@[3] == 0x2d
                            && s@[4] == 0x6b && s@[5] == 0x76);
                    }
                }
            }
            Err(Error::InvalidIdentity)
        }
    }

    /// Writes the textual wire form of this identity.
    pub fn format(&self) -> (r: Vec<u8>)
        ensures
            r@ =~= spec_format(*self),
    {
        match self.imp {
            NodeIdImp::SeqKv => {
                let mut r: Vec<u8> = Vec::new();
                r.push(0x73);
                r.push(0x65);
                r.push(0x71);
                r.push(0x2d);
                r.push(0x6b);
                r.push(0x76);
                proof {
                    assert(r@ =~= seq_kv_bytes());
                }
                r
            },
            NodeIdImp::Maelstrom(v) => format_prefixed(0x63, v),
            NodeIdImp::Node(v) => format_prefixed(0x6e, v),
        }
    }
}

/// Writes a one-byte prefix followed by the canonical decimal digits of `v`.
fn format_prefixed(prefix: u8, v: u32) -> (r: Vec<u8>)
    ensures
        r@ =~= seq![prefix] + dec_digits(v as nat),
{
    let digits = format_u32(v);
    let mut r: Vec<u8> = Vec::new();
    r.push(prefix);
    let mut i: usize = 0;
    while i < digits.len()
        invariant
            i <= digits@.len(),
            digits@ =~= dec_digits(v as nat),
            r@ =~= seq![prefix] + digits@.take(i as int),
        decreases digits@.len() - i,
    {
        let b = digits[i];
        r.push(b);
        proof {
            assert(seq![prefix] + digits@.take(i + 1) =~= (seq![prefix] + digits@.take(
                i as int,
            )).push(digits@[i as int]));
        }
        i = i + 1;
    }
    proof {
        assert(digits@.take(digits@.len() as int) =~= digits@);
    }
    r
}

/// The total order of identities: kind first — external clients, then
/// cluster nodes, then the store, which ranks greatest — and the numeric
/// value within a kind.
pub open spec fn node_le(a: NodeId, b: NodeId) -> bool {
    match (a.imp, b.imp) {
        (NodeIdImp::Maelstrom(x), NodeIdImp::Maelstrom(y)) => x <= y,
        (NodeIdImp::Maelstrom(_), _) => true,
        (NodeIdImp::Node(_), NodeIdImp::Maelstrom(_)) => false,
        (NodeIdImp::Node(x), NodeIdImp::Node(y)) => x <= y,
        (NodeIdImp::Node(_), NodeIdImp::SeqKv) => true,
        (NodeIdImp::SeqKv, NodeIdImp::SeqKv) => true,
        (NodeIdImp::SeqKv, _) => false,
    }
}

/// The identity order as a relation value, for sorting.
pub open spec fn node_le_fn() -> spec_fn(NodeId, NodeId) -> bool {
    |a: NodeId, b: NodeId| node_le(a, b)
}

/// The identity order compares any two identities, agrees with equality,
/// and chains.
pub proof fn lemma_node_le_props(a: NodeId, b: NodeId, c: NodeId)
    ensures
        node_le(a, a),
        node_le(a, b) || node_le(b, a),
        node_le(a, b) && node_le(b, a) ==> a == b,
        node_le(a, b) && node_le(b, c) ==> node_le(a, c),
{
}

/// The identity order is a total ordering.
pub proof fn lemma_node_le_total_ordering()
    ensures
        vstd::relations::total_ordering(node_le_fn()),
{
    let r = node_le_fn();
    assert forall|x: NodeId| #[trigger] r(x, x) by {
        lemma_node_le_props(x, x, x);
    }
    assert forall|x: NodeId, y: NodeId| #[trigger] r(x, y) && #[trigger] r(y, x) implies x == y by {
        lemma_node_le_props(x, y, y);
    }
    assert forall|x: NodeId, y: NodeId, z: NodeId| #[trigger] r(x, y) && #[trigger] r(
        y,
        z,
    ) implies r(x, z) by {
        lemma_node_le_props(x, y, z);
    }
    assert forall|x: NodeId, y: NodeId| #[trigger] r(x, y) || #[trigger] r(y, x) by {
        lemma_node_le_props(x, y, y);
    }
}

impl NodeId {
    /// Does this identity rank at or below `other` in the identity order?
    pub fn le(self, other: NodeId) -> (r: bool)
        ensures
            r == node_le(self, other),
    {
        match (self.imp, other.imp) {
            (NodeIdImp::Maelstrom(x), NodeIdImp::Maelstrom(y)) => x <= y,
            (NodeIdImp::Maelstrom(_), _) => true,
            (NodeIdImp::Node(_), NodeIdImp::Maelstrom(_)) => false,
            (NodeIdImp::Node(x), NodeIdImp::Node(y)) => x <= y,
            (NodeIdImp::Node(_), NodeIdImp::SeqKv) => true,
            (NodeIdImp::SeqKv, NodeIdImp::SeqKv) => true,
            (NodeIdImp::SeqKv, _) => false,
        }
    }
}

/// Every constructible identity survives the trip through its wire form:
/// parsing what `format` wrote gives the identity back.
pub proof fn lemma_parse_format_roundtrip(id: NodeId)
    ensures
        spec_parse(spec_format(id)) == Some(id),
        canonical_identity(spec_format(id)),
{
    match id.imp {
        NodeIdImp::SeqKv => {},
        NodeIdImp::Maelstrom(v) => {
            lemma_prefixed_parses(0x63, v);
        },
        NodeIdImp::Node(v) => {
            lemma_prefixed_parses(0x6e, v);
        },
    }
}

proof fn lemma_prefixed_parses(prefix: u8, v: u32)
    requires
        prefix == 0x63 || prefix == 0x6e,
    ensures
        ({
            let s = seq![prefix] + dec_digits(v as nat);
            &&& s != seq_kv_bytes()
            &&& s.len() >= 2
            &&& s[0] == prefix
            &&& s.skip(1) =~= dec_digits(v as nat)
            &&& all_digits(s.skip(1))
            &&& dec_value(s.skip(1)) == v as nat
            &&& canonical_dec(s.skip(1))
        }),
{
    let s = seq![prefix] + dec_digits(v as nat);
    lemma_dec_digits_canonical(v as nat);
    lemma_dec_value_of_digits(v as nat);
    assert(s.skip(1) =~= dec_digits(v as nat));
    assert(s[0] == prefix);
    assert(s != seq_kv_bytes()) by {
        if s == seq_kv_bytes() {
            assert(s[0] == 0x73);
        }
    }
}

/// A valid wire form with no superfluous leading zero survives the opposite
/// trip: formatting what `parse` read gives the text back. (A non-canonical
/// form such as a zero-padded number parses but re-formats shorter.)
pub proof fn lemma_format_parse_roundtrip(s: Seq<u8>)
    requires
        spec_parse(s) is Some,
        canonical_identity(s),
    ensures
        spec_format(spec_parse(s)->Some_0) == s,
{
    if s == seq_kv_bytes() {
    } else {
        let id = spec_parse(s)->Some_0;
        let v = dec_value(s.skip(1));
        lemma_dec_digits_of_value(s.skip(1));
        assert(dec_digits(v) =~= s.skip(1));
        assert(seq![s[0]] + s.skip(1) =~= s);
        assert(spec_format(id) =~= s);
    }
}

} // verus!
