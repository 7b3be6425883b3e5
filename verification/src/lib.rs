//! Node-graph container: positioned nodes and the wires between their pins.
//!
//! The graph keeps typed nodes in slots keyed by [`NodeId`], and a set of
//! wires, each joining an output pin of one node to an input pin of another.
use vstd::prelude::*;

pub mod color;
pub mod effect;
pub mod iter;
pub mod laws;
pub mod outside;
pub mod pins;
pub mod search;
pub mod snarl;
pub mod state;
pub mod wire_drop;
mod wires;

pub use crate::iter::{
    NodeIdsDataIter, NodeInfoIter, NodesIdsIter, NodesIter, NodesPosIdsIter, NodesPosIter,
};
pub use crate::pins::{AnyPin, AnyPins, InPin, NodeLayoutKind, OutPin, PinShape, WireLayer};
pub use crate::snarl::Snarl;

verus! {

/// Node identifier.
///
/// Newtype wrapper around `usize` without arithmetic operations.
#[derive(Clone, Copy, Debug, PartialEq, Eq, PartialOrd, Ord, Hash, Structural)]
pub struct NodeId(pub usize);

/// Node of the graph.
#[derive(Clone, Debug)]
#[non_exhaustive]
pub struct Node<T> {
    /// Node generic value.
    pub value: T,
    /// Position of the top-left corner of the node.
    /// This does not include frame margin.
    pub pos: egui::Pos2,
    /// Flag indicating that the node is open - not collapsed.
    pub open: bool,
}

/// Output pin identifier: node id and pin index.
#[derive(Clone, Copy, Debug, PartialEq, Eq, PartialOrd, Ord, Hash, Structural)]
pub struct OutPinId {
    /// Node id.
    pub node: NodeId,
    /// Output pin index.
    pub output: usize,
}

/// Input pin identifier: node id and pin index.
#[derive(Clone, Copy, Debug, PartialEq, Eq, PartialOrd, Ord, Hash, Structural)]
pub struct InPinId {
    /// Node id.
    pub node: NodeId,
    /// Input pin index.
    pub input: usize,
}

/// Connection between an output pin and an input pin.
///
/// Pins may take part in several connections, but a connection between the
/// same output and the same input is held at most once.
#[derive(Clone, Copy, Debug, PartialEq, Eq, Hash, Structural)]
pub struct Wire {
    /// Output end of the wire.
    pub out_pin: OutPinId,
    /// Input end of the wire.
    pub in_pin: InPinId,
}

/// The wire that joins `from` to `to`.
pub open spec fn wire_of(from: OutPinId, to: InPinId) -> Wire {
    Wire { out_pin: from, in_pin: to }
}

/// Whether the wire touches the node at either end.
pub open spec fn wire_touches(w: Wire, node: NodeId) -> bool {
    w.out_pin.node == node || w.in_pin.node == node
}

/// Growing a prefix by one element adds exactly that element.
pub(crate) proof fn lemma_take_push_contains<A>(s: Seq<A>, i: int, x: A)
    requires
        0 <= i < s.len(),
    ensures
        s.take(i + 1).contains(x) <==> (s.take(i).contains(x) || x == s[i]),
{
    assert(s.take(i + 1) =~= s.take(i).push(s[i]));
    if s.take(i + 1).contains(x) && x != s[i] {
        let k = choose|k: int| 0 <= k < i + 1 && #[trigger] s.take(i + 1)[k] == x;
        assert(s.take(i)[k] == x);
    }
    if s.take(i).contains(x) {
        let k = choose|k: int| 0 <= k < i && s.take(i)[k] == x;
        assert(s.take(i + 1)[k] == x);
    }
    if x == s[i] {
        assert(s.take(i + 1)[i] == x);
    }
}

/// Pushing onto a sequence adds exactly the pushed element.
pub(crate) proof fn lemma_push_contains<A>(s: Seq<A>, v: A, x: A)
    ensures
        s.push(v).contains(x) <==> (s.contains(x) || x == v),
{
    if s.push(v).contains(x) && x != v {
        let k = choose|k: int| 0 <= k < s.len() + 1 && s.push(v)[k] == x;
        assert(s[k] == x);
    }
    if s.contains(x) {
        let k = choose|k: int| 0 <= k < s.len() && s[k] == x;
        assert(s.push(v)[k] == x);
    }
    if x == v {
        assert(s.push(v)[s.len() as int] == x);
    }
}

/// Pushing a fresh element keeps a sequence free of repeats.
pub(crate) proof fn lemma_push_no_dup<A>(s: Seq<A>, v: A)
    requires
        s.no_duplicates(),
        !s.contains(v),
    ensures
        s.push(v).no_duplicates(),
{
    let t = s.push(v);
    assert forall|a: int, b: int| 0 <= a < t.len() && 0 <= b < t.len() && a != b implies t[a] != t[b] by {
        if a == s.len() {
            assert(s[b] == t[b]);
        } else if b == s.len() {
            assert(s[a] == t[a]);
        } else {
            assert(s[a] == t[a] && s[b] == t[b]);
        }
    }
}

} // verus!
