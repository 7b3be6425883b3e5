//! Deferred changes to a graph, collected first and applied later.
use vstd::prelude::*;

use crate::snarl::Snarl;
use crate::{wire_of, wire_touches, InPinId, Node, NodeId, OutPinId, Wire};

verus! {

/// A change to a graph.
pub enum Effect<T> {
    /// Adds a new node to the graph.
    InsertNode { pos: egui::Pos2, node: T },
    /// Removes a node from the graph.
    RemoveNode { node: NodeId },
    /// Opens or closes a node.
    OpenNode { node: NodeId, open: bool },
    /// Adds a connection between two nodes.
    Connect { from: OutPinId, to: InPinId },
    /// Removes a connection between two nodes.
    Disconnect { from: OutPinId, to: InPinId },
    /// Removes all connections from the output pin.
    DropOutputs { pin: OutPinId },
    /// Removes all connections to the input pin.
    DropInputs { pin: InPinId },
}

/// Graph state as a model: nodes by identifier, the set of wires, and the
/// identifier that the next inserted node takes.
pub type GraphModel<T> = (Map<NodeId, Node<T>>, Set<Wire>, NodeId);

/// What applying one effect does to the model. An effect that names a node
/// the graph does not hold changes nothing. A new node takes the next
/// identifier, after which the next identifier is again one not in use; a
/// removed node's identifier becomes the next one.
pub open spec fn effect_step<T>(pre: GraphModel<T>, e: Effect<T>, post: GraphModel<T>) -> bool {
    let nodes = pre.0;
    let wires = pre.1;
    let next = pre.2;
    match e {
        Effect::InsertNode { pos, node } => {
            &&& !nodes.dom().contains(next)
            &&& post.0 == nodes.insert(next, Node { value: node, pos: pos, open: true })
            &&& post.1 == wires
            &&& !post.0.dom().contains(post.2)
        },
        Effect::RemoveNode { node } => if nodes.dom().contains(node) {
            post == (nodes.remove(node), wires.filter(|w: Wire| !wire_touches(w, node)), node)
        } else {
            post == pre
        },
        Effect::OpenNode { node, open } => if nodes.dom().contains(node) {
            post == (nodes.insert(node, Node { value: nodes[node].value, pos: nodes[node].pos, open: open }), wires, next)
        } else {
            post == pre
        },
        Effect::Connect { from, to } => if nodes.dom().contains(from.node) && nodes.dom().contains(to.node) {
            post == (nodes, wires.insert(wire_of(from, to)), next)
        } else {
            post == pre
        },
        Effect::Disconnect { from, to } => if nodes.dom().contains(from.node) && nodes.dom().contains(to.node) {
            post == (nodes, wires.remove(wire_of(from, to)), next)
        } else {
            post == pre
        },
        Effect::DropOutputs { pin } => if nodes.dom().contains(pin.node) {
            post == (nodes, wires.filter(|w: Wire| w.out_pin != pin), next)
        } else {
            post == pre
        },
        Effect::DropInputs { pin } => if nodes.dom().contains(pin.node) {
            post == (nodes, wires.filter(|w: Wire| w.in_pin != pin), next)
        } else {
            post == pre
        },
    }
}

/// `states` walks from its first model to its last by applying `es` in order.
pub open spec fn effect_run<T>(states: Seq<GraphModel<T>>, es: Seq<Effect<T>>) -> bool {
    &&& states.len() == es.len() + 1
    &&& forall|k: int| 0 <= k < es.len() ==> #[trigger] effect_step(states[k], es[k], states[k + 1])
}

/// One effect applied (as `Snarl::apply_effect` describes it) is a run of
/// that single effect.
pub proof fn lemma_effect_run_single<T>(pre: GraphModel<T>, e: Effect<T>, post: GraphModel<T>)
    requires
        effect_step(pre, e, post),
    ensures
        effect_run(seq![pre, post], seq![e]),
{
    assert(seq![pre, post][1] == post);
}

/// With no effects the model stays as it is.
pub proof fn lemma_effect_run_empty<T>(states: Seq<GraphModel<T>>)
    requires
        effect_run(states, Seq::<Effect<T>>::empty()),
    ensures
        states.len() == 1,
        states.last() == states[0],
{
}

/// Applying `e1` and then, from where it ended, `e2` is applying `e1 + e2`.
pub proof fn lemma_effect_run_concat<T>(
    s1: Seq<GraphModel<T>>,
    e1: Seq<Effect<T>>,
    s2: Seq<GraphModel<T>>,
    e2: Seq<Effect<T>>,
)
    requires
        effect_run(s1, e1),
        effect_run(s2, e2),
        s1.last() == s2[0],
    ensures
        effect_run(s1 + s2.skip(1), e1 + e2),
        (s1 + s2.skip(1))[0] == s1[0],
        (s1 + s2.skip(1)).last() == s2.last(),
{
    let s = s1 + s2.skip(1);
    let e = e1 + e2;
    assert forall|k: int| 0 <= k < e.len() implies #[trigger] effect_step(s[k], e[k], s[k + 1]) by {
        if k < e1.len() {
            assert(s[k] == s1[k]);
            assert(e[k] == e1[k]);
            if k + 1 < s1.len() {
                assert(s[k + 1] == s1[k + 1]);
            }
        } else {
            let j = k - e1.len();
            assert(e[k] == e2[j]);
            assert(s[k] == s2[j]);
            assert(s[k + 1] == s2[j + 1]);
            assert(effect_step(s2[j], e2[j], s2[j + 1]));
        }
    }
}

/// Every application of `e1 + e2` is an application of `e1` followed, from
/// where it ended, by an application of `e2`.
pub proof fn lemma_effect_run_split<T>(s: Seq<GraphModel<T>>, e1: Seq<Effect<T>>, e2: Seq<Effect<T>>)
    requires
        effect_run(s, e1 + e2),
    ensures
        effect_run(s.take(e1.len() + 1int), e1),
        effect_run(s.skip(e1.len() as int), e2),
        s.take(e1.len() + 1int).last() == s.skip(e1.len() as int)[0],
        s.take(e1.len() + 1int)[0] == s[0],
        s.skip(e1.len() as int).last() == s.last(),
{
    let e = e1 + e2;
    let a = s.take(e1.len() + 1int);
    let b = s.skip(e1.len() as int);
    assert forall|k: int| 0 <= k < e1.len() implies #[trigger] effect_step(a[k], e1[k], a[k + 1]) by {
        assert(e[k] == e1[k]);
        assert(effect_step(s[k], e[k], s[k + 1]));
    }
    assert forall|k: int| 0 <= k < e2.len() implies #[trigger] effect_step(b[k], e2[k], b[k + 1]) by {
        let j = k + e1.len();
        assert(e[j] == e2[k]);
        assert(effect_step(s[j], e[j], s[j + 1]));
    }
}

/// An insert effect does what `Snarl::insert_node` does: applied to a graph,
/// it gives the same nodes and wires as inserting the node directly. The new
/// node takes the next identifier, holds the given value and position, and is
/// open; every other node and every wire stays as it was.
pub proof fn lemma_insert_effect_is_insert_node<T>(
    before: Snarl<T>,
    by_effect: Snarl<T>,
    by_insert: Snarl<T>,
    id: NodeId,
    pos: egui::Pos2,
    node: T,
)
    requires
        effect_step(before.model(), Effect::InsertNode { pos: pos, node: node }, by_effect.model()),
        id == before.next_id(),
        by_insert.node_map() == before.node_map().insert(id, Node { value: node, pos: pos, open: true }),
        by_insert.wire_set() == before.wire_set(),
    ensures
        by_effect.node_map() == by_insert.node_map(),
        by_effect.wire_set() == by_insert.wire_set(),
        by_effect.contains(id),
        by_effect.node_map()[id].open,
        by_effect.node_map()[id].value == node,
        by_effect.node_map()[id].pos == pos,
        forall|other: NodeId| #[trigger] before.contains(other) ==> by_effect.node_map()[other] == before.node_map()[other],
{
}

/// Container for deferred execution of effects.
pub struct Effects<T> {
    effects: Vec<Effect<T>>,
}

impl<T> View for Effects<T> {
    type V = Seq<Effect<T>>;

    closed spec fn view(&self) -> Seq<Effect<T>> {
        self.effects@
    }
}

impl<T> Default for Effects<T> {
    fn default() -> (r: Self)
        ensures
            r@ == Seq::<Effect<T>>::empty(),
    {
        Effects { effects: Vec::new() }
    }
}

impl<T> Effects<T> {
    /// No effects.
    pub fn new() -> (r: Self)
        ensures
            r@ == Seq::<Effect<T>>::empty(),
    {
        Effects { effects: Vec::new() }
    }

    /// Whether there are no effects.
    pub fn is_empty(&self) -> (r: bool)
        ensures
            r == (self@.len() == 0),
    {
        self.effects.len() == 0
    }

    /// Queues the insertion of a new node.
    pub fn insert_node(&mut self, pos: egui::Pos2, node: T)
        ensures
            final(self)@ == old(self)@.push(Effect::InsertNode { pos: pos, node: node }),
    {
        self.effects.push(Effect::InsertNode { node, pos });
    }

    /// Queues the removal of a node.
    pub fn remove_node(&mut self, node: NodeId)
        ensures
            final(self)@ == old(self)@.push(Effect::RemoveNode { node: node }),
    {
        self.effects.push(Effect::RemoveNode { node });
    }

    /// Queues opening or closing a node.
    pub fn open_node(&mut self, node: NodeId, open: bool)
        ensures
            final(self)@ == old(self)@.push(Effect::OpenNode { node: node, open: open }),
    {
        self.effects.push(Effect::OpenNode { node, open });
    }

    /// Queues connecting two nodes.
    pub fn connect(&mut self, from: OutPinId, to: InPinId)
        ensures
            final(self)@ == old(self)@.push(Effect::Connect { from: from, to: to }),
    {
        self.effects.push(Effect::Connect { from, to });
    }

    /// Queues disconnecting two nodes.
    pub fn disconnect(&mut self, from: OutPinId, to: InPinId)
        ensures
            final(self)@ == old(self)@.push(Effect::Disconnect { from: from, to: to }),
    {
        self.effects.push(Effect::Disconnect { from, to });
    }

    /// Queues removing all connections to the input pin.
    pub fn drop_inputs(&mut self, pin: InPinId)
        ensures
            final(self)@ == old(self)@.push(Effect::DropInputs { pin: pin }),
    {
        self.effects.push(Effect::DropInputs { pin });
    }

    /// Queues removing all connections from the output pin.
    pub fn drop_outputs(&mut self, pin: OutPinId)
        ensures
            final(self)@ == old(self)@.push(Effect::DropOutputs { pin: pin }),
    {
        self.effects.push(Effect::DropOutputs { pin });
    }
}

impl<T> Snarl<T> {
    /// The graph as a model: nodes by identifier, the set of wires, and the
    /// identifier that the next inserted node takes.
    pub open spec fn model(&self) -> GraphModel<T> {
        (self.node_map(), self.wire_set(), self.next_id())
    }

    /// Applies every effect, in order.
    pub fn apply_effects(&mut self, effects: Effects<T>)
        requires
            old(self).wf(),
        ensures
            final(self).wf(),
            exists|states: Seq<GraphModel<T>>| #[trigger] effect_run(states, effects@)
                && states[0] == old(self).model() && states.last() == final(self).model(),
    {
        let ghost es = effects@;
        if effects.effects.len() == 0 {
            assert(effect_run(seq![self.model()], es));
            assert(seq![self.model()].last() == self.model());
            return;
        }
        let ghost mut states: Seq<GraphModel<T>> = seq![self.model()];
        let mut rest = effects.effects;
        let mut i: usize = 0;
        let n = rest.len();
        while rest.len() > 0
            invariant
                self.wf(),
                n == es.len(),
                i + rest@.len() == n,
                rest@ == es.skip(i as int),
                states.len() == i + 1,
                states[0] == old(self).model(),
                states.last() == self.model(),
                forall|k: int| 0 <= k < i ==> #[trigger] effect_step(states[k], es[k], states[k + 1]),
            decreases rest@.len(),
        {
            let e = rest.remove(0);
            assert(e == es[i as int]);
            let ghost pre = self.model();
            self.apply_effect(e);
            proof {
                states = states.push(self.model());
                assert(states[i as int] == pre);
            }
            i = i + 1;
            assert(rest@ =~= es.skip(i as int));
        }
        assert(effect_run(states, es));
    }

    /// Applies one effect. An effect that names a node that the graph does not
    /// hold is ignored.
    pub fn apply_effect(&mut self, effect: Effect<T>)
        requires
            old(self).wf(),
        ensures
            final(self).wf(),
            effect_step(old(self).model(), effect, final(self).model()),
            effect matches Effect::InsertNode { pos, node } ==> {
                &&& final(self).node_map() == old(self).node_map().insert(
                    old(self).next_id(),
                    Node { value: node, pos: pos, open: true },
                )
                &&& final(self).wire_set() == old(self).wire_set()
            },
            effect matches Effect::RemoveNode { node } ==> {
                &&& old(self).contains(node) ==> final(self).node_map() == old(self).node_map().remove(node)
                    && final(self).wire_set() == old(self).wire_set().filter(|w: Wire| !wire_touches(w, node))
                    && final(self).next_id() == node
                &&& !old(self).contains(node) ==> final(self).model() == old(self).model()
            },
            effect matches Effect::OpenNode { node, open } ==> {
                &&& old(self).contains(node) ==> final(self).node_map() == old(self).node_map().insert(
                    node,
                    Node { value: old(self).node_map()[node].value, pos: old(self).node_map()[node].pos, open: open },
                ) && final(self).wire_set() == old(self).wire_set()
                &&& !old(self).contains(node) ==> final(self).model() == old(self).model()
            },
            effect matches Effect::Connect { from, to } ==> {
                &&& old(self).contains(from.node) && old(self).contains(to.node) ==>
                    final(self).wire_set() == old(self).wire_set().insert(wire_of(from, to))
                    && final(self).node_map() == old(self).node_map()
                &&& !(old(self).contains(from.node) && old(self).contains(to.node)) ==> final(self).model() == old(self).model()
            },
            effect matches Effect::Disconnect { from, to } ==> {
                &&& old(self).contains(from.node) && old(self).contains(to.node) ==>
                    final(self).wire_set() == old(self).wire_set().remove(wire_of(from, to))
                    && final(self).node_map() == old(self).node_map()
                &&& !(old(self).contains(from.node) && old(self).contains(to.node)) ==> final(self).model() == old(self).model()
            },
            effect matches Effect::DropInputs { pin } ==> {
                &&& old(self).contains(pin.node) ==>
                    final(self).wire_set() == old(self).wire_set().filter(|w: Wire| w.in_pin != pin)
                    && final(self).node_map() == old(self).node_map()
                &&& !old(self).contains(pin.node) ==> final(self).model() == old(self).model()
            },
            effect matches Effect::DropOutputs { pin } ==> {
                &&& old(self).contains(pin.node) ==>
                    final(self).wire_set() == old(self).wire_set().filter(|w: Wire| w.out_pin != pin)
                    && final(self).node_map() == old(self).node_map()
                &&& !old(self).contains(pin.node) ==> final(self).model() == old(self).model()
            },
    {
        let ghost e = effect;
        match effect {
            Effect::InsertNode { node, pos } => {
                self.insert_node(pos, node);
                proof {
                    self.lemma_next_id_is_free();
                }
            },
            Effect::RemoveNode { node } => {
                if self.contains_node(node) {
                    self.remove_node(node);
                }
            },
            Effect::OpenNode { node, open } => {
                if self.contains_node(node) {
                    self.open_node(node, open);
                }
            },
            Effect::Connect { from, to } => {
                if self.contains_node(from.node) && self.contains_node(to.node) {
                    self.connect(from, to);
                }
            },
            Effect::Disconnect { from, to } => {
                if self.contains_node(from.node) && self.contains_node(to.node) {
                    self.disconnect(from, to);
                }
            },
            Effect::DropOutputs { pin } => {
                if self.contains_node(pin.node) {
                    self.drop_outputs(pin);
                }
            },
            Effect::DropInputs { pin } => {
                if self.contains_node(pin.node) {
                    self.drop_inputs(pin);
                }
            },
        }
    }
}

} // verus!
