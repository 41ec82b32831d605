//! Proof operations: the typed instructions whose replay reconstructs a
//! (partial) Merkle tree and its root hash.  A chunk is one serialized
//! sequence of these operations.

use vstd::prelude::*;

verus! {

/// A node pushed onto the proof stack: the bare hash of an elided subtree,
/// the hash of a key/value pair, or the full key/value pair itself.
#[derive(Clone, Debug, PartialEq, Eq)]
pub enum Node {
    Hash(Vec<u8>),
    KVHash(Vec<u8>),
    KV(Vec<u8>, Vec<u8>),
}

/// A single proof instruction: push a node, or combine the two topmost
/// subtrees by attaching one as the left (`Parent`) or right (`Child`)
/// child of the other.
#[derive(Clone, Debug, PartialEq, Eq)]
pub enum Op {
    Push(Node),
    Parent,
    Child,
}

/// Mathematical model of a [`Node`].
pub enum NodeV {
    Hash(Seq<u8>),
    KVHash(Seq<u8>),
    KV(Seq<u8>, Seq<u8>),
}

/// Mathematical model of an [`Op`].
pub enum OpV {
    Push(NodeV),
    Parent,
    Child,
}

impl DeepView for Node {
    type V = NodeV;

    open spec fn deep_view(&self) -> NodeV {
        match self {
            Node::Hash(h) => NodeV::Hash(h@),
            Node::KVHash(h) => NodeV::KVHash(h@),
            Node::KV(k, v) => NodeV::KV(k@, v@),
        }
    }
}

impl DeepView for Op {
    type V = OpV;

    open spec fn deep_view(&self) -> OpV {
        match self {
            Op::Push(n) => OpV::Push(n.deep_view()),
            Op::Parent => OpV::Parent,
            Op::Child => OpV::Child,
        }
    }
}

/// The keys of the key/value push operations in `ops`, in order of
/// appearance.  Applied to a trunk, these are the boundary keys that split
/// the key space into leaf chunk ranges.
pub open spec fn kv_keys_of(ops: Seq<OpV>) -> Seq<Seq<u8>>
    decreases ops.len(),
{
    if ops.len() == 0 {
        Seq::empty()
    } else {
        let rest = kv_keys_of(ops.drop_first());
        match ops[0] {
            OpV::Push(NodeV::KV(k, _)) => seq![k] + rest,
            _ => rest,
        }
    }
}

} // verus!
