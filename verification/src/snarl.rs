//! The graph container: nodes in slots keyed by the slab, and the wires.
use vstd::prelude::*;

use crate::outside::{slab_clone, slab_contains, slab_insert, slab_keys, slab_new, slab_remove, slab_vacant_key};
use crate::iter::{
    Entries, NodeIdsDataIter, NodeInfoIter, NodesIdsIter, NodesIter, NodesPosIdsIter, NodesPosIter,
};
use crate::pins::{InPin, OutPin};
use crate::wires::{WireFilter, Wires};
use crate::{wire_of, wire_touches, InPinId, Node, NodeId, OutPinId, Wire};

verus! {

/// Generic node-graph container.
///
/// It holds the graph state: positioned nodes and wires between their pins.
#[derive(Debug)]
pub struct Snarl<T> {
    /// Allocates node identifiers.
    ids: slab::Slab<()>,
    /// Node at each identifier that the slab holds.
    nodes: Vec<Option<Node<T>>>,
    wires: Wires,
}

/// Identifiers of the occupied slots among the first `n`, in increasing order.
pub open spec fn ids_upto<T>(slots: Seq<Option<Node<T>>>, n: nat) -> Seq<NodeId>
    decreases n,
{
    if n == 0 {
        Seq::<NodeId>::empty()
    } else {
        let prev = ids_upto(slots, (n - 1) as nat);
        if slots[n - 1] is Some {
            prev.push(NodeId((n - 1) as usize))
        } else {
            prev
        }
    }
}

/// Identifiers in strictly increasing order.
pub open spec fn increasing_ids(s: Seq<NodeId>) -> bool {
    forall|a: int, b: int| 0 <= a < b < s.len() ==> s[a].0 < s[b].0
}

proof fn lemma_ids_upto<T>(slots: Seq<Option<Node<T>>>, n: nat)
    requires
        n <= slots.len(),
        slots.len() <= usize::MAX + 1,
    ensures
        increasing_ids(ids_upto(slots, n)),
        forall|k: int| 0 <= k < ids_upto(slots, n).len() ==> ids_upto(slots, n)[k].0 < n,
        forall|id: NodeId| ids_upto(slots, n).contains(id) <==> (id.0 < n && slots[id.0 as int] is Some),
    decreases n,
{
    if n > 0 {
        lemma_ids_upto(slots, (n - 1) as nat);
        let prev = ids_upto(slots, (n - 1) as nat);
        if slots[n - 1] is Some {
            let cur = prev.push(NodeId((n - 1) as usize));
            assert forall|id: NodeId| cur.contains(id) <==> (id.0 < n && slots[id.0 as int] is Some) by {
                crate::lemma_push_contains(prev, NodeId((n - 1) as usize), id);
                if prev.contains(id) {
                    assert(id.0 < n - 1);
                }
            }
        }
    }
}

impl<T> Snarl<T> {
    spec fn has_slot(&self, id: NodeId) -> bool {
        id.0 < self.nodes@.len() && self.nodes@[id.0 as int] is Some
    }

    /// Well-formedness: the slab holds exactly the identifiers of the occupied
    /// slots, its next vacant key is free, no wire is held twice, and every
    /// wire joins two present nodes.
    pub closed spec fn wf(&self) -> bool {
        &&& forall|k: usize| slab_keys(self.ids).contains(k) <==> (k < self.nodes@.len() && self.nodes@[k as int] is Some)
        &&& !slab_keys(self.ids).contains(slab_vacant_key(self.ids))
        &&& self.wires.wf()
        &&& forall|w: Wire| #[trigger] self.wires@.contains(w) ==> self.has_slot(w.out_pin.node) && self.has_slot(w.in_pin.node)
    }

    /// The nodes of the graph, by identifier.
    pub closed spec fn node_map(&self) -> Map<NodeId, Node<T>> {
        Map::new(|id: NodeId| self.has_slot(id), |id: NodeId| self.nodes@[id.0 as int]->Some_0)
    }

    /// The wires of the graph.
    pub closed spec fn wire_set(&self) -> Set<Wire> {
        self.wires@.to_set()
    }

    /// Identifier that the next inserted node takes: the slab's next vacant
    /// key, which is the identifier removed last while it stays free.
    pub closed spec fn next_id(&self) -> NodeId {
        NodeId(slab_vacant_key(self.ids))
    }

    /// Identifiers of the nodes, in increasing order.
    pub closed spec fn id_seq(&self) -> Seq<NodeId> {
        ids_upto(self.nodes@, self.nodes@.len())
    }

    /// Whether the graph holds a node with this identifier.
    pub open spec fn contains(&self, id: NodeId) -> bool {
        self.node_map().dom().contains(id)
    }

    /// Every wire of a well-formed graph joins two nodes that the graph holds,
    /// and the set of wires is finite.
    pub proof fn lemma_wires_join_nodes(&self)
        requires
            self.wf(),
        ensures
            self.wire_set().finite(),
            forall|w: Wire| #[trigger] self.wire_set().contains(w) ==> self.contains(w.out_pin.node) && self.contains(w.in_pin.node),
    {
        assert forall|w: Wire| #[trigger] self.wire_set().contains(w) implies self.contains(w.out_pin.node) && self.contains(w.in_pin.node) by {
            assert(self.wires@.contains(w));
        }
        self.wires@.unique_seq_to_set();
    }

    /// The identifier that the next insert takes is never one of a node that
    /// the graph holds.
    pub proof fn lemma_next_id_is_free(&self)
        requires
            self.wf(),
        ensures
            !self.contains(self.next_id()),
    {
    }

    /// The identifier sequence lists each node exactly once, in increasing order.
    pub proof fn lemma_id_seq(&self)
        ensures
            increasing_ids(self.id_seq()),
            forall|id: NodeId| self.id_seq().contains(id) <==> self.contains(id),
    {
        broadcast use vstd::std_specs::vec::axiom_spec_len;
        assert(self.nodes@.len() == self.nodes.len());
        lemma_ids_upto(self.nodes@, self.nodes@.len());
    }

    /// Creates a new empty graph.
    pub fn new() -> (r: Self)
        ensures
            r.wf(),
            r.node_map() == Map::<NodeId, Node<T>>::empty(),
            r.wire_set() == Set::<Wire>::empty(),
            r.next_id() == NodeId(0),
    {
        let r = Snarl { ids: slab_new(), nodes: Vec::new(), wires: Wires::new() };
        assert(r.node_map() =~= Map::<NodeId, Node<T>>::empty());
        assert(r.wire_set() =~= Set::<Wire>::empty());
        r
    }

    fn insert_with(&mut self, pos: egui::Pos2, node: T, open: bool) -> (id: NodeId)
        requires
            old(self).wf(),
        ensures
            final(self).wf(),
            id == old(self).next_id(),
            !old(self).contains(id),
            final(self).node_map() == old(self).node_map().insert(id, Node { value: node, pos: pos, open: open }),
            final(self).wire_set() == old(self).wire_set(),
    {
        let ghost old_nodes = self.nodes@;
        let ghost old_keys = slab_keys(self.ids);
        let key = slab_insert(&mut self.ids);
        assert(!(key < old_nodes.len() && old_nodes[key as int] is Some));
        while self.nodes.len() <= key
            invariant
                slab_keys(self.ids) == old_keys.insert(key),
                !slab_keys(self.ids).contains(slab_vacant_key(self.ids)),
                key == slab_vacant_key(old(self).ids),
                self.wires == old(self).wires,
                self.nodes@.len() >= old_nodes.len(),
                forall|k: int| 0 <= k < old_nodes.len() ==> self.nodes@[k] == old_nodes[k],
                forall|k: int| old_nodes.len() <= k < self.nodes@.len() ==> self.nodes@[k] is None,
            decreases key + 1 - self.nodes@.len(),
        {
            self.nodes.push(None);
        }
        self.nodes.set(key, Some(Node { value: node, pos: pos, open: open }));
        let id = NodeId(key);
        assert(self.node_map() =~= old(self).node_map().insert(id, Node { value: node, pos: pos, open: open }));
        assert forall|w: Wire| #[trigger] self.wires@.contains(w) implies self.has_slot(w.out_pin.node) && self.has_slot(w.in_pin.node) by {
            assert(old(self).wires@.contains(w));
        }
        id
    }

    /// Adds an open node to the graph and returns its identifier.
    pub fn insert_node(&mut self, pos: egui::Pos2, node: T) -> (id: NodeId)
        requires
            old(self).wf(),
        ensures
            final(self).wf(),
            id == old(self).next_id(),
            !old(self).contains(id),
            final(self).node_map() == old(self).node_map().insert(id, Node { value: node, pos: pos, open: true }),
            final(self).wire_set() == old(self).wire_set(),
    {
        self.insert_with(pos, node, true)
    }

    /// Adds a collapsed node to the graph and returns its identifier.
    pub fn insert_node_collapsed(&mut self, pos: egui::Pos2, node: T) -> (id: NodeId)
        requires
            old(self).wf(),
        ensures
            final(self).wf(),
            id == old(self).next_id(),
            !old(self).contains(id),
            final(self).node_map() == old(self).node_map().insert(id, Node { value: node, pos: pos, open: false }),
            final(self).wire_set() == old(self).wire_set(),
    {
        self.insert_with(pos, node, false)
    }

    /// Opens or collapses a node that the graph holds.
    pub fn open_node(&mut self, node: NodeId, open: bool)
        requires
            old(self).wf(),
            old(self).contains(node),
        ensures
            final(self).wf(),
            final(self).node_map() == old(self).node_map().insert(
                node,
                Node { value: old(self).node_map()[node].value, pos: old(self).node_map()[node].pos, open: open },
            ),
            final(self).wire_set() == old(self).wire_set(),
            final(self).next_id() == old(self).next_id(),
    {
        let mut slot: Option<Node<T>> = None;
        self.nodes.set_and_swap(node.0, &mut slot);
        let mut n = slot.unwrap();
        n.open = open;
        self.nodes.set(node.0, Some(n));
        assert(self.node_map() =~= old(self).node_map().insert(
            node,
            Node { value: old(self).node_map()[node].value, pos: old(self).node_map()[node].pos, open: open },
        ));
        assert forall|w: Wire| #[trigger] self.wires@.contains(w) implies self.has_slot(w.out_pin.node) && self.has_slot(w.in_pin.node) by {
            assert(old(self).wires@.contains(w));
        }
    }

    /// Removes a node that the graph holds, with every wire that touches it,
    /// and returns its value.
    pub fn remove_node(&mut self, idx: NodeId) -> (r: T)
        requires
            old(self).wf(),
            old(self).contains(idx),
        ensures
            final(self).wf(),
            r == old(self).node_map()[idx].value,
            final(self).node_map() == old(self).node_map().remove(idx),
            final(self).wire_set() == old(self).wire_set().filter(|w: Wire| !wire_touches(w, idx)),
            final(self).next_id() == idx,
    {
        slab_remove(&mut self.ids, idx.0);
        let mut slot: Option<Node<T>> = None;
        self.nodes.set_and_swap(idx.0, &mut slot);
        let n = slot.unwrap();
        self.wires.drop_node(idx);
        assert(self.node_map() =~= old(self).node_map().remove(idx));
        assert(self.wire_set() =~= old(self).wire_set().filter(|w: Wire| !wire_touches(w, idx))) by {
            assert(old(self).wire_set().filter(|w: Wire| !wire_touches(w, idx))
                =~= old(self).wire_set().filter(|w: Wire| WireFilter::AwayFrom(idx).keeps(w)));
        }
        assert forall|w: Wire| #[trigger] self.wires@.contains(w) implies self.has_slot(w.out_pin.node) && self.has_slot(w.in_pin.node) by {
            assert(self.wire_set().contains(w));
            assert(old(self).wires@.contains(w));
        }
        n.value
    }

    /// Shared reference to the value of the node, if the graph holds it.
    /// This is also how the graph is indexed by a node identifier: the
    /// caller decides what a missing node means, where an index would panic.
    pub fn get_node(&self, idx: NodeId) -> (r: Option<&T>)
        ensures
            r is Some <==> self.contains(idx),
            r matches Some(v) ==> *v == self.node_map()[idx].value,
    {
        if idx.0 < self.nodes.len() {
            match &self.nodes[idx.0] {
                Some(n) => Some(&n.value),
                None => None,
            }
        } else {
            None
        }
    }

    /// Shared reference to the node data, if the graph holds it.
    pub fn get_node_info(&self, idx: NodeId) -> (r: Option<&Node<T>>)
        ensures
            r is Some <==> self.contains(idx),
            r matches Some(n) ==> *n == self.node_map()[idx],
    {
        if idx.0 < self.nodes.len() {
            self.nodes[idx.0].as_ref()
        } else {
            None
        }
    }

    /// Mutable reference to the value of the node, if the graph holds it.
    /// What is written through it becomes the node's value; nothing else changes.
    pub fn get_node_mut(&mut self, idx: NodeId) -> (r: Option<&mut T>)
        ensures
            r is Some <==> old(self).contains(idx),
            r matches Some(v) ==> {
                &&& *v == old(self).node_map()[idx].value
                &&& final(self).node_map() == old(self).node_map().insert(
                    idx,
                    Node { value: *final(v), pos: old(self).node_map()[idx].pos, open: old(self).node_map()[idx].open },
                )
                &&& final(self).wire_set() == old(self).wire_set()
                &&& final(self).next_id() == old(self).next_id()
                &&& (old(self).wf() ==> final(self).wf())
            },
            r is None ==> *final(self) == *old(self),
    {
        if idx.0 < self.nodes.len() && self.nodes[idx.0].is_some() {
            match &mut self.nodes[idx.0] {
                Some(n) => Some(&mut n.value),
                None => None,
            }
        } else {
            None
        }
    }


    /// Mutable reference to the node data, if the graph holds it.
    /// What is written through it becomes the node; nothing else changes.
    pub fn get_node_info_mut(&mut self, idx: NodeId) -> (r: Option<&mut Node<T>>)
        ensures
            r is Some <==> old(self).contains(idx),
            r matches Some(n) ==> {
                &&& *n == old(self).node_map()[idx]
                &&& final(self).node_map() == old(self).node_map().insert(idx, *final(n))
                &&& final(self).wire_set() == old(self).wire_set()
                &&& final(self).next_id() == old(self).next_id()
                &&& (old(self).wf() ==> final(self).wf())
            },
            r is None ==> *final(self) == *old(self),
    {
        if idx.0 < self.nodes.len() && self.nodes[idx.0].is_some() {
            match &mut self.nodes[idx.0] {
                Some(n) => Some(n),
                None => None,
            }
        } else {
            None
        }
    }

    /// Entries of the graph (identifier and node) in increasing identifier order.
    pub open spec fn entry_seq(&self) -> Seq<(NodeId, Node<T>)> {
        self.id_seq().map_values(|id: NodeId| (id, self.node_map()[id]))
    }

    fn entries(&self) -> (r: Entries<'_, T>)
        ensures
            r.rest() == self.entry_seq(),
    {
        let mut items: Vec<(NodeId, &Node<T>)> = Vec::new();
        let mut i: usize = 0;
        while i < self.nodes.len()
            invariant
                i <= self.nodes@.len(),
                items@.len() == ids_upto(self.nodes@, i as nat).len(),
                forall|k: int| #![trigger items@[k]] 0 <= k < items@.len() ==> items@[k].0 == ids_upto(self.nodes@, i as nat)[k]
                    && *items@[k].1 == self.node_map()[ids_upto(self.nodes@, i as nat)[k]],
            decreases self.nodes@.len() - i,
        {
            proof {
                lemma_ids_upto(self.nodes@, i as nat);
            }
            match &self.nodes[i] {
                Some(n) => {
                    items.push((NodeId(i), n));
                },
                None => {},
            }
            i = i + 1;
        }
        assert(items@.map_values(|e: (NodeId, &Node<T>)| (e.0, *e.1)) =~= self.entry_seq());
        Entries::new(items)
    }

    /// Walk over the node values.
    pub fn nodes(&self) -> (r: NodesIter<'_, T>)
        ensures
            r.rest() == self.entry_seq(),
    {
        NodesIter::new(self.entries())
    }

    /// Walk over the node positions and values.
    pub fn nodes_pos(&self) -> (r: NodesPosIter<'_, T>)
        ensures
            r.rest() == self.entry_seq(),
    {
        NodesPosIter::new(self.entries())
    }

    /// Walk over the node identifiers and values.
    pub fn node_ids(&self) -> (r: NodesIdsIter<'_, T>)
        ensures
            r.rest() == self.entry_seq(),
    {
        NodesIdsIter::new(self.entries())
    }

    /// Walk over the node identifiers, positions and values.
    pub fn nodes_pos_ids(&self) -> (r: NodesPosIdsIter<'_, T>)
        ensures
            r.rest() == self.entry_seq(),
    {
        NodesPosIdsIter::new(self.entries())
    }

    /// Walk over the node data.
    pub fn nodes_info(&self) -> (r: NodeInfoIter<'_, T>)
        ensures
            r.rest() == self.entry_seq(),
    {
        NodeInfoIter::new(self.entries())
    }

    /// Walk over the node identifiers and data.
    pub fn nodes_ids_data(&self) -> (r: NodeIdsDataIter<'_, T>)
        ensures
            r.rest() == self.entry_seq(),
    {
        NodeIdsDataIter::new(self.entries())
    }

    /// Every wire, as (output, input) pairs, each once.
    pub fn wires(&self) -> (r: Vec<(OutPinId, InPinId)>)
        requires
            self.wf(),
        ensures
            r@.no_duplicates(),
            r@.len() == self.wire_set().len(),
            forall|from: OutPinId, to: InPinId| #[trigger] r@.contains((from, to)) <==> self.wire_set().contains(wire_of(from, to)),
    {
        let r = self.wires.iter();
        proof {
            self.wires@.unique_seq_to_set();
            assert forall|from: OutPinId, to: InPinId| #[trigger] r@.contains((from, to)) <==> self.wire_set().contains(wire_of(from, to)) by {
                if r@.contains((from, to)) {
                    let k = choose|k: int| 0 <= k < r@.len() && r@[k] == (from, to);
                    assert(self.wires@[k] == wire_of(from, to));
                }
                if self.wire_set().contains(wire_of(from, to)) {
                    let k = choose|k: int| 0 <= k < self.wires@.len() && self.wires@[k] == wire_of(from, to);
                    assert(r@[k] == (from, to));
                }
            }
            assert forall|a: int, b: int| 0 <= a < r@.len() && 0 <= b < r@.len() && a != b implies r@[a] != r@[b] by {
                if r@[a] == r@[b] {
                    assert(self.wires@[a] == self.wires@[b]);
                }
            }
        }
        r
    }

    /// Input pin with the output pins wired to it.
    pub fn in_pin(&self, pin: InPinId) -> (r: InPin)
        requires
            self.wf(),
        ensures
            r.id == pin,
            r.remotes@.no_duplicates(),
            forall|from: OutPinId| #[trigger] r.remotes@.contains(from) <==> self.wire_set().contains(wire_of(from, pin)),
    {
        InPin::new(self, pin)
    }

    /// Output pin with the input pins wired to it.
    pub fn out_pin(&self, pin: OutPinId) -> (r: OutPin)
        requires
            self.wf(),
        ensures
            r.id == pin,
            r.remotes@.no_duplicates(),
            forall|to: InPinId| #[trigger] r.remotes@.contains(to) <==> self.wire_set().contains(wire_of(pin, to)),
    {
        OutPin::new(self, pin)
    }

    /// Whether the graph holds the node.
    pub fn contains_node(&self, id: NodeId) -> (r: bool)
        requires
            self.wf(),
        ensures
            r == self.contains(id),
    {
        slab_contains(&self.ids, id.0)
    }

    /// Connects an output pin to an input pin of nodes that the graph holds.
    /// Answers `false` when the wire was already there.
    pub fn connect(&mut self, from: OutPinId, to: InPinId) -> (r: bool)
        requires
            old(self).wf(),
            old(self).contains(from.node),
            old(self).contains(to.node),
        ensures
            final(self).wf(),
            r == !old(self).wire_set().contains(wire_of(from, to)),
            final(self).wire_set() == old(self).wire_set().insert(wire_of(from, to)),
            final(self).node_map() == old(self).node_map(),
            final(self).next_id() == old(self).next_id(),
    {
        let wire = Wire { out_pin: from, in_pin: to };
        let r = self.wires.insert(wire);
        assert forall|w: Wire| #[trigger] self.wires@.contains(w) implies self.has_slot(w.out_pin.node) && self.has_slot(w.in_pin.node) by {
            assert(self.wire_set().contains(w));
            if w != wire {
                assert(old(self).wires@.contains(w));
            }
        }
        assert(self.node_map() =~= old(self).node_map());
        r
    }

    /// Disconnects an output pin from an input pin of nodes that the graph
    /// holds. Answers whether the wire was there.
    pub fn disconnect(&mut self, from: OutPinId, to: InPinId) -> (r: bool)
        requires
            old(self).wf(),
            old(self).contains(from.node),
            old(self).contains(to.node),
        ensures
            final(self).wf(),
            r == old(self).wire_set().contains(wire_of(from, to)),
            final(self).wire_set() == old(self).wire_set().remove(wire_of(from, to)),
            final(self).node_map() == old(self).node_map(),
            final(self).next_id() == old(self).next_id(),
    {
        let wire = Wire { out_pin: from, in_pin: to };
        let r = self.wires.remove(&wire);
        assert forall|w: Wire| #[trigger] self.wires@.contains(w) implies self.has_slot(w.out_pin.node) && self.has_slot(w.in_pin.node) by {
            assert(self.wire_set().contains(w));
            assert(old(self).wires@.contains(w));
        }
        assert(self.node_map() =~= old(self).node_map());
        r
    }

    /// Removes every wire into the input pin of a node that the graph holds;
    /// answers how many were removed.
    pub fn drop_inputs(&mut self, pin: InPinId) -> (r: usize)
        requires
            old(self).wf(),
            old(self).contains(pin.node),
        ensures
            final(self).wf(),
            final(self).wire_set() == old(self).wire_set().filter(|w: Wire| w.in_pin != pin),
            r == old(self).wire_set().len() - final(self).wire_set().len(),
            final(self).node_map() == old(self).node_map(),
            final(self).next_id() == old(self).next_id(),
    {
        let r = self.wires.drop_inputs(pin);
        assert(old(self).wire_set().filter(|w: Wire| w.in_pin != pin)
            =~= old(self).wire_set().filter(|w: Wire| WireFilter::NotInto(pin).keeps(w)));
        assert forall|w: Wire| #[trigger] self.wires@.contains(w) implies self.has_slot(w.out_pin.node) && self.has_slot(w.in_pin.node) by {
            assert(self.wire_set().contains(w));
            assert(old(self).wires@.contains(w));
        }
        assert(self.node_map() =~= old(self).node_map());
        r
    }

    /// Removes every wire out of the output pin of a node that the graph
    /// holds; answers how many were removed.
    pub fn drop_outputs(&mut self, pin: OutPinId) -> (r: usize)
        requires
            old(self).wf(),
            old(self).contains(pin.node),
        ensures
            final(self).wf(),
            final(self).wire_set() == old(self).wire_set().filter(|w: Wire| w.out_pin != pin),
            r == old(self).wire_set().len() - final(self).wire_set().len(),
            final(self).node_map() == old(self).node_map(),
            final(self).next_id() == old(self).next_id(),
    {
        let r = self.wires.drop_outputs(pin);
        assert(old(self).wire_set().filter(|w: Wire| w.out_pin != pin)
            =~= old(self).wire_set().filter(|w: Wire| WireFilter::NotFrom(pin).keeps(w)));
        assert forall|w: Wire| #[trigger] self.wires@.contains(w) implies self.has_slot(w.out_pin.node) && self.has_slot(w.in_pin.node) by {
            assert(self.wire_set().contains(w));
            assert(old(self).wires@.contains(w));
        }
        assert(self.node_map() =~= old(self).node_map());
        r
    }
}

impl OutPin {
    fn new<T>(snarl: &Snarl<T>, pin: OutPinId) -> (r: Self)
        requires
            snarl.wf(),
        ensures
            r.id == pin,
            r.remotes@.no_duplicates(),
            forall|to: InPinId| #[trigger] r.remotes@.contains(to) <==> snarl.wire_set().contains(wire_of(pin, to)),
    {
        OutPin { id: pin, remotes: snarl.wires.wired_inputs(pin) }
    }
}

impl InPin {
    fn new<T>(snarl: &Snarl<T>, pin: InPinId) -> (r: Self)
        requires
            snarl.wf(),
        ensures
            r.id == pin,
            r.remotes@.no_duplicates(),
            forall|from: OutPinId| #[trigger] r.remotes@.contains(from) <==> snarl.wire_set().contains(wire_of(from, pin)),
    {
        InPin { id: pin, remotes: snarl.wires.wired_outputs(pin) }
    }
}

impl<T: Clone> Clone for Snarl<T> {
    fn clone(&self) -> (r: Self)
        ensures
            self.wf() ==> r.wf(),
            r.node_map().dom() == self.node_map().dom(),
            forall|id: NodeId| #[trigger] self.contains(id) ==> {
                &&& r.node_map()[id].pos == self.node_map()[id].pos
                &&& r.node_map()[id].open == self.node_map()[id].open
                &&& cloned(self.node_map()[id].value, r.node_map()[id].value)
            },
            r.wire_set() == self.wire_set(),
            r.next_id() == self.next_id(),
    {
        let mut nodes: Vec<Option<Node<T>>> = Vec::new();
        let mut i: usize = 0;
        while i < self.nodes.len()
            invariant
                i <= self.nodes@.len(),
                nodes@.len() == i,
                forall|k: int| #![trigger nodes@[k]] 0 <= k < i ==> (nodes@[k] is Some <==> self.nodes@[k] is Some),
                forall|k: int| #![trigger nodes@[k]] 0 <= k < i && self.nodes@[k] is Some ==> {
                    &&& nodes@[k]->Some_0.pos == self.nodes@[k]->Some_0.pos
                    &&& nodes@[k]->Some_0.open == self.nodes@[k]->Some_0.open
                    &&& cloned(self.nodes@[k]->Some_0.value, nodes@[k]->Some_0.value)
                },
            decreases self.nodes@.len() - i,
        {
            match &self.nodes[i] {
                Some(n) => {
                    let value = n.value.clone();
                    nodes.push(Some(Node { value, pos: n.pos, open: n.open }));
                },
                None => {
                    nodes.push(None);
                },
            }
            i = i + 1;
        }
        let r = Snarl { ids: slab_clone(&self.ids), nodes, wires: self.wires.clone() };
        assert(r.node_map().dom() =~= self.node_map().dom());
        r
    }
}

impl<T> Default for Snarl<T> {
    fn default() -> (r: Self)
        ensures
            r.wf(),
            r.node_map() == Map::<NodeId, Node<T>>::empty(),
            r.wire_set() == Set::<Wire>::empty(),
            r.next_id() == NodeId(0),
    {
        Snarl::new()
    }
}

} // verus!
