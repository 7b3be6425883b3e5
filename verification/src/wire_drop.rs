//! What happens when the user lets go of the wires being dragged.
use vstd::prelude::*;

use crate::pins::AnyPin;
use crate::state::{NewWires, PinsView};
use crate::{InPinId, OutPinId};

verus! {

/// Outcome of dropping the wires being dragged.
pub enum WireDrop {
    /// Connect these (output, input) pairs, in this order.
    Connect(Vec<(OutPinId, InPinId)>),
    /// The wires were dropped over empty graph space: the dropped-wire menu
    /// may be offered for them.
    Menu(NewWires),
    /// The wires are discarded.
    Discard,
}

/// Pairs each input pin with the output pin, in order.
pub open spec fn pairs_to_inputs(out: OutPinId, ins: Seq<InPinId>) -> Seq<(OutPinId, InPinId)> {
    ins.map_values(|p: InPinId| (out, p))
}

/// Pairs each output pin with the input pin, in order.
pub open spec fn pairs_from_outputs(outs: Seq<OutPinId>, inp: InPinId) -> Seq<(OutPinId, InPinId)> {
    outs.map_values(|p: OutPinId| (p, inp))
}

/// Decides what dropping the dragged wires does. Wires dragged from input
/// pins and dropped on an output pin connect that output to each of them;
/// wires dragged from output pins and dropped on an input pin connect each
/// of them to that input. Dropped over the graph but on no pin, they go to
/// the dropped-wire menu. In every other case (no wires, a pin of the same
/// side, or outside the graph) they are discarded.
pub fn drop_new_wires(new_wires: Option<NewWires>, hovered: Option<AnyPin>, over_graph: bool) -> (r: WireDrop)
    ensures
        match new_wires {
            None => r is Discard,
            Some(w) => match (w@, hovered) {
                (PinsView::In(ins), Some(AnyPin::Out(out))) =>
                    r matches WireDrop::Connect(v) && v@ == pairs_to_inputs(out, ins),
                (PinsView::Out(outs), Some(AnyPin::In(inp))) =>
                    r matches WireDrop::Connect(v) && v@ == pairs_from_outputs(outs, inp),
                (_, None) => if over_graph {
                    r matches WireDrop::Menu(m) && m@ == w@
                } else {
                    r is Discard
                },
                _ => r is Discard,
            },
        },
{
    match new_wires {
        None => WireDrop::Discard,
        Some(w) => match hovered {
            Some(AnyPin::Out(out)) => match w.in_pins() {
                Some(ins) => {
                    let mut v: Vec<(OutPinId, InPinId)> = Vec::new();
                    let mut i: usize = 0;
                    while i < ins.len()
                        invariant
                            i <= ins@.len(),
                            v@ == pairs_to_inputs(out, ins@.take(i as int)),
                        decreases ins@.len() - i,
                    {
                        proof {
                            assert(ins@.take(i + 1) =~= ins@.take(i as int).push(ins@[i as int]));
                        }
                        v.push((out, ins[i]));
                        i = i + 1;
                        proof {
                            assert(v@ =~= pairs_to_inputs(out, ins@.take(i as int)));
                        }
                    }
                    proof {
                        assert(ins@.take(i as int) =~= ins@);
                    }
                    WireDrop::Connect(v)
                },
                None => WireDrop::Discard,
            },
            Some(AnyPin::In(inp)) => match w.out_pins() {
                Some(outs) => {
                    let mut v: Vec<(OutPinId, InPinId)> = Vec::new();
                    let mut i: usize = 0;
                    while i < outs.len()
                        invariant
                            i <= outs@.len(),
                            v@ == pairs_from_outputs(outs@.take(i as int), inp),
                        decreases outs@.len() - i,
                    {
                        proof {
                            assert(outs@.take(i + 1) =~= outs@.take(i as int).push(outs@[i as int]));
                        }
                        v.push((outs[i], inp));
                        i = i + 1;
                        proof {
                            assert(v@ =~= pairs_from_outputs(outs@.take(i as int), inp));
                        }
                    }
                    proof {
                        assert(outs@.take(i as int) =~= outs@);
                    }
                    WireDrop::Connect(v)
                },
                None => WireDrop::Discard,
            },
            None => if over_graph {
                WireDrop::Menu(w)
            } else {
                WireDrop::Discard
            },
        },
    }
}

} // verus!
