//! Laws of the graph that relate several operations.
use vstd::prelude::*;

use crate::effect::{effect_run, lemma_effect_run_concat, Effect, GraphModel};
use crate::snarl::Snarl;
use crate::state::{first_index, lemma_first_index, remove_first};
use crate::{wire_of, wire_touches, InPinId, Node, NodeId, OutPinId, Wire};

verus! {

/// A read gives back what a write wrote: once a node is inserted (as
/// `insert_node` describes it), the graph holds it under the returned
/// identifier with the given value, position and open flag, and holds every
/// node it held before unchanged.
pub proof fn lemma_read_after_insert<T>(before: Snarl<T>, after: Snarl<T>, id: NodeId, value: T, pos: egui::Pos2, open: bool)
    requires
        !before.contains(id),
        after.node_map() == before.node_map().insert(id, Node { value: value, pos: pos, open: open }),
    ensures
        after.contains(id),
        after.node_map()[id] == (Node { value: value, pos: pos, open: open }),
        forall|other: NodeId| #[trigger] before.contains(other) ==> after.contains(other) && after.node_map()[other] == before.node_map()[other],
{
}

/// Identifiers are handed out again: a node inserted right after a removal
/// (as `remove_node` and `insert_node` describe them) takes the identifier of
/// the node removed, and the graph never holds the identifier that the next
/// insert takes.
pub proof fn lemma_insert_reuses_removed_id<T>(removed: Snarl<T>, idx: NodeId, id: NodeId)
    requires
        removed.wf(),
        removed.next_id() == idx,
        id == removed.next_id(),
    ensures
        id == idx,
        !removed.contains(id),
{
    removed.lemma_next_id_is_free();
}

/// Removing a node undoes inserting it: inserting a node (which has no wires
/// yet) and removing it again gives back the inserted value and leaves the
/// nodes and wires as they were.
pub proof fn lemma_remove_undoes_insert<T>(
    before: Snarl<T>,
    mid: Snarl<T>,
    after: Snarl<T>,
    id: NodeId,
    value: T,
    pos: egui::Pos2,
    open: bool,
    removed: T,
)
    requires
        before.wf(),
        !before.contains(id),
        mid.node_map() == before.node_map().insert(id, Node { value: value, pos: pos, open: open }),
        mid.wire_set() == before.wire_set(),
        removed == mid.node_map()[id].value,
        after.node_map() == mid.node_map().remove(id),
        after.wire_set() == mid.wire_set().filter(|w: Wire| !wire_touches(w, id)),
    ensures
        removed == value,
        after.node_map() == before.node_map(),
        after.wire_set() == before.wire_set(),
{
    before.lemma_wires_join_nodes();
    assert(after.node_map() =~= before.node_map());
    assert(after.wire_set() =~= before.wire_set());
}

/// Disconnecting undoes connecting: connecting a new wire and disconnecting
/// it again leaves the wires as they were.
pub proof fn lemma_disconnect_undoes_connect<T>(
    before: Snarl<T>,
    mid: Snarl<T>,
    after: Snarl<T>,
    from: OutPinId,
    to: InPinId,
)
    requires
        !before.wire_set().contains(wire_of(from, to)),
        mid.wire_set() == before.wire_set().insert(wire_of(from, to)),
        after.wire_set() == mid.wire_set().remove(wire_of(from, to)),
    ensures
        after.wire_set() == before.wire_set(),
{
    assert(after.wire_set() =~= before.wire_set());
}

/// Connecting is idempotent: connecting a wire that is already there changes
/// no wire.
pub proof fn lemma_connect_idempotent<T>(before: Snarl<T>, after: Snarl<T>, from: OutPinId, to: InPinId)
    requires
        before.wire_set().contains(wire_of(from, to)),
        after.wire_set() == before.wire_set().insert(wire_of(from, to)),
    ensures
        after.wire_set() == before.wire_set(),
{
    assert(after.wire_set() =~= before.wire_set());
}

/// After a node is removed, no wire touches it, and every wire joins nodes
/// that the graph still holds.
pub proof fn lemma_removed_node_is_unwired<T>(after: Snarl<T>, id: NodeId)
    requires
        after.wf(),
        !after.contains(id),
    ensures
        forall|w: Wire| #[trigger] after.wire_set().contains(w) ==> !wire_touches(w, id),
{
    after.lemma_wires_join_nodes();
}

/// After dropping the wires into an input pin, no wire ends there; after
/// dropping the wires out of an output pin, none starts there.
pub proof fn lemma_dropped_pins_are_unwired<T>(after: Snarl<T>, before: Snarl<T>, in_pin: InPinId, out_pin: OutPinId)
    ensures
        after.wire_set() == before.wire_set().filter(|w: Wire| w.in_pin != in_pin) ==>
            forall|from: OutPinId| !after.wire_set().contains(#[trigger] wire_of(from, in_pin)),
        after.wire_set() == before.wire_set().filter(|w: Wire| w.out_pin != out_pin) ==>
            forall|to: InPinId| !after.wire_set().contains(#[trigger] wire_of(out_pin, to)),
{
}

/// Selecting a node without reset keeps a selection free of repeats, and the
/// node ends up selected, last.
pub proof fn lemma_select_keeps_distinct(sel: Seq<NodeId>, node: NodeId)
    requires
        sel.no_duplicates(),
    ensures
        remove_first(sel, node).push(node).no_duplicates(),
        remove_first(sel, node).push(node).last() == node,
{
    lemma_first_index(sel, node);
    let t = remove_first(sel, node);
    if sel.contains(node) {
        let i = first_index(sel, node);
        assert(t =~= sel.remove(i));
        assert forall|a: int, b: int| 0 <= a < t.len() && 0 <= b < t.len() && a != b implies t[a] != t[b] by {
            let a2 = if a < i { a } else { a + 1 };
            let b2 = if b < i { b } else { b + 1 };
            assert(t[a] == sel[a2] && t[b] == sel[b2]);
        }
        assert(!t.contains(node)) by {
            if t.contains(node) {
                let k = choose|k: int| 0 <= k < t.len() && t[k] == node;
                let k2 = if k < i { k } else { k + 1 };
                assert(sel[k2] == node && k2 != i);
            }
        }
    }
    crate::lemma_push_no_dup(t, node);
}

/// Applying one batch of effects and then another (as `apply_effects`
/// describes it) is applying their concatenation: the graph reached is one
/// that applying `e1 + e2` in order reaches.
pub proof fn lemma_apply_effects_concat<T>(
    before: Snarl<T>,
    mid: Snarl<T>,
    after: Snarl<T>,
    e1: Seq<Effect<T>>,
    e2: Seq<Effect<T>>,
)
    requires
        exists|s1: Seq<GraphModel<T>>| #[trigger] effect_run(s1, e1)
            && s1[0] == before.model() && s1.last() == mid.model(),
        exists|s2: Seq<GraphModel<T>>| #[trigger] effect_run(s2, e2)
            && s2[0] == mid.model() && s2.last() == after.model(),
    ensures
        exists|s: Seq<GraphModel<T>>| #[trigger] effect_run(s, e1 + e2)
            && s[0] == before.model() && s.last() == after.model(),
{
    let s1 = choose|s1: Seq<GraphModel<T>>| #[trigger] effect_run(s1, e1)
        && s1[0] == before.model() && s1.last() == mid.model();
    let s2 = choose|s2: Seq<GraphModel<T>>| #[trigger] effect_run(s2, e2)
        && s2[0] == mid.model() && s2.last() == after.model();
    lemma_effect_run_concat(s1, e1, s2, e2);
}

} // verus!
